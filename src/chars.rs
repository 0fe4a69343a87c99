//! Character sequences: UTF-8 byte lengths, searching and copying.
use vstd::prelude::*;
use vstd::std_specs::iter::IteratorSpec;
use vstd::utf8::*;

verus! {

/// Number of bytes that the UTF-8 encoding of `c` takes.
pub open spec fn char_width(c: char) -> nat {
    if (c as u32) < 0x80 {
        1
    } else if (c as u32) < 0x800 {
        2
    } else if (c as u32) < 0x10000 {
        3
    } else {
        4
    }
}

/// Number of bytes that the UTF-8 encoding of `s` takes.
pub open spec fn byte_len(s: Seq<char>) -> nat
    decreases s.len(),
{
    if s.len() == 0 {
        0
    } else {
        byte_len(s.drop_last()) + char_width(s.last())
    }
}

pub proof fn lemma_byte_len_concat(a: Seq<char>, b: Seq<char>)
    ensures
        byte_len(a + b) == byte_len(a) + byte_len(b),
    decreases b.len(),
{
    if b.len() > 0 {
        lemma_byte_len_concat(a, b.drop_last());
        assert((a + b).drop_last() =~= a + b.drop_last());
    } else {
        assert(a + b =~= a);
    }
}

pub proof fn lemma_byte_len_push(s: Seq<char>, c: char)
    ensures
        byte_len(s.push(c)) == byte_len(s) + char_width(c),
{
    assert(s.push(c).drop_last() =~= s);
}

pub proof fn lemma_byte_len_at_least_len(s: Seq<char>)
    ensures
        byte_len(s) >= s.len(),
    decreases s.len(),
{
    if s.len() > 0 {
        lemma_byte_len_at_least_len(s.drop_last());
    }
}

/// The byte length agrees with the length of vstd's UTF-8 encoding, which is
/// what `str::len` reports.
pub proof fn lemma_byte_len_encode(s: Seq<char>)
    ensures
        byte_len(s) == encode_utf8(s).len(),
    decreases s.len(),
{
    if s.len() > 0 {
        lemma_byte_len_encode(s.drop_first());
        lemma_byte_len_concat(seq![s[0]], s.drop_first());
        assert(seq![s[0]] + s.drop_first() =~= s);
        lemma_scalar_width(s[0]);
        lemma_byte_len_push(Seq::<char>::empty(), s[0]);
        assert(Seq::<char>::empty().push(s[0]) =~= seq![s[0]]);
        assert(byte_len(Seq::<char>::empty()) == 0);
    }
}

proof fn lemma_scalar_width(c: char)
    ensures
        encode_scalar(c as u32).len() == char_width(c),
{
    char_is_scalar(c);
}

/// The UTF-8 width of one character.
pub fn utf8_width(c: char) -> (r: usize)
    ensures
        r == char_width(c),
{
    let v = c as u32;
    if v < 0x80 {
        1
    } else if v < 0x800 {
        2
    } else if v < 0x10000 {
        3
    } else {
        4
    }
}

/// Relies on `String::push`: the character is appended at the end.
#[verifier::external_body]
pub fn push_char(s: &mut String, c: char)
    ensures
        final(s)@ == old(s)@.push(c),
{
    s.push(c)
}

/// The characters of `s`, in order.
pub fn to_chars(s: &str) -> (r: Vec<char>)
    ensures
        r@ == s@,
{
    let mut v: Vec<char> = Vec::new();
    for c in it: s.chars()
        invariant
            v@ == it.seq().take(it.index() as int),
    {
        v.push(c);
    }
    assert(v@ =~= s@);
    v
}

/// `pat` stands in `s` from index `i` on.
pub open spec fn occurs_at(s: Seq<char>, pat: Seq<char>, i: int) -> bool {
    0 <= i && i + pat.len() <= s.len() && s.subrange(i, i + pat.len()) == pat
}

/// The first index at or after `i` from which `pat` stands in `s`.
pub open spec fn find_from(s: Seq<char>, pat: Seq<char>, i: int) -> Option<int>
    decreases s.len() + 1 - i,
{
    if i < 0 || i + pat.len() > s.len() {
        None
    } else if occurs_at(s, pat, i) {
        Some(i)
    } else {
        find_from(s, pat, i + 1)
    }
}

/// The first index from which `pat` stands in `s`.
pub open spec fn find(s: Seq<char>, pat: Seq<char>) -> Option<int> {
    find_from(s, pat, 0)
}

/// What `find_from` gives, when there is something, lies in range, holds an
/// occurrence, and no occurrence stands between `i` and it.
pub proof fn lemma_find_from(s: Seq<char>, pat: Seq<char>, i: int)
    requires
        0 <= i,
    ensures
        find_from(s, pat, i) matches Some(k) ==> i <= k && k + pat.len() <= s.len() && occurs_at(
            s,
            pat,
            k,
        ) && forall|j: int| i <= j < k ==> !occurs_at(s, pat, j),
        find_from(s, pat, i) is None ==> forall|j: int| i <= j ==> !occurs_at(s, pat, j),
    decreases s.len() + 1 - i,
{
    if i + pat.len() <= s.len() && !occurs_at(s, pat, i) {
        lemma_find_from(s, pat, i + 1);
    }
}

/// `find` gives the first index from which `pat` stands in `s`.
pub proof fn lemma_find_at(s: Seq<char>, pat: Seq<char>, k: int)
    requires
        occurs_at(s, pat, k),
        forall|j: int| 0 <= j < k ==> !occurs_at(s, pat, j),
    ensures
        find(s, pat) == Some(k),
{
    lemma_find_from(s, pat, 0);
}

/// `find_from` gives the first index at or after `i` from which `pat`
/// stands in `s`.
pub proof fn lemma_find_from_at(s: Seq<char>, pat: Seq<char>, i: int, k: int)
    requires
        0 <= i <= k,
        occurs_at(s, pat, k),
        forall|j: int| i <= j < k ==> !occurs_at(s, pat, j),
    ensures
        find_from(s, pat, i) == Some(k),
{
    lemma_find_from(s, pat, i);
}

/// `find` gives nothing when `pat` stands nowhere in `s`.
pub proof fn lemma_find_none(s: Seq<char>, pat: Seq<char>)
    requires
        forall|j: int| !occurs_at(s, pat, j),
    ensures
        find(s, pat) is None,
{
    lemma_find_from(s, pat, 0);
}

/// Without line breaks, `breaks_to_spaces` changes nothing.
pub proof fn lemma_no_breaks(s: Seq<char>)
    requires
        forall|i: int| 0 <= i < s.len() ==> #[trigger] s[i] != '\n' && s[i] != '\r',
    ensures
        breaks_to_spaces(s) == s,
    decreases s.len(),
{
    if s.len() > 0 {
        let r = s.skip(1);
        assert forall|i: int| 0 <= i < r.len() implies #[trigger] r[i] != '\n' && r[i] != '\r' by {
            assert(r[i] == s[i + 1]);
        }
        lemma_no_breaks(r);
        assert(seq![s[0]] + r =~= s);
    }
}

/// Whether `pat` stands in `s` from index `i` on.
pub fn occurs_at_exec(s: &[char], i: usize, pat: &[char]) -> (r: bool)
    ensures
        r == occurs_at(s@, pat@, i as int),
{
    if i > s.len() || pat.len() > s.len() - i {
        return false;
    }
    let mut k: usize = 0;
    while k < pat.len()
        invariant
            k <= pat@.len(),
            i + pat@.len() <= s@.len(),
            s@.len() == s.len(),
            forall|j: int| 0 <= j < k ==> s@[i + j] == pat@[j],
        decreases pat@.len() - k,
    {
        if s[i + k] != pat[k] {
            assert(s@.subrange(i as int, i + pat@.len())[k as int] != pat@[k as int]);
            return false;
        }
        k += 1;
    }
    assert(s@.subrange(i as int, i + pat@.len()) =~= pat@);
    true
}

/// The first index at or after `from` from which `pat` stands in `s`.
pub fn find_from_exec(s: &[char], from: usize, pat: &[char]) -> (r: Option<usize>)
    ensures
        match r {
            Some(k) => find_from(s@, pat@, from as int) == Some(k as int),
            None => find_from(s@, pat@, from as int) is None,
        },
{
    let mut i = from;
    while i <= s.len() && pat.len() <= s.len() - i
        invariant
            from <= i,
            find_from(s@, pat@, from as int) == find_from(s@, pat@, i as int),
        decreases s@.len() - i,
    {
        if occurs_at_exec(s, i, pat) {
            return Some(i);
        }
        assert(pat@.len() > 0) by {
            if pat@.len() == 0 {
                assert(s@.subrange(i as int, i as int) =~= pat@);
            }
        }
        i += 1;
    }
    None
}

/// The number of leading characters of `s`, at `k` or more, that take
/// exactly `bytes` bytes: none when no prefix ends on that byte.
pub open spec fn chars_for_bytes_from(s: Seq<char>, bytes: nat, k: int) -> Option<int>
    decreases s.len() + 1 - k,
{
    if k < 0 || k > s.len() || byte_len(s.take(k)) > bytes {
        None
    } else if byte_len(s.take(k)) == bytes {
        Some(k)
    } else {
        chars_for_bytes_from(s, bytes, k + 1)
    }
}

/// The number of leading characters of `s` that take exactly `bytes` bytes.
pub open spec fn chars_for_bytes(s: Seq<char>, bytes: nat) -> Option<int> {
    chars_for_bytes_from(s, bytes, 0)
}

/// The number of leading characters of `s` that take exactly `bytes` bytes.
pub fn chars_for_bytes_exec(s: &[char], bytes: usize) -> (r: Option<usize>)
    requires
        byte_len(s@) <= usize::MAX,
    ensures
        match r {
            Some(k) => chars_for_bytes(s@, bytes as nat) == Some(k as int) && k <= s@.len(),
            None => chars_for_bytes(s@, bytes as nat) is None,
        },
{
    let mut k: usize = 0;
    let mut n: usize = 0;
    assert(s@.take(0) =~= Seq::<char>::empty());
    loop
        invariant
            k <= s@.len(),
            n == byte_len(s@.take(k as int)),
            byte_len(s@) <= usize::MAX,
            chars_for_bytes(s@, bytes as nat) == chars_for_bytes_from(s@, bytes as nat, k as int),
        decreases s@.len() - k,
    {
        if n == bytes {
            return Some(k);
        }
        if n > bytes {
            return None;
        }
        if k == s.len() {
            assert(chars_for_bytes_from(s@, bytes as nat, k + 1) is None);
            return None;
        }
        proof {
            assert(s@.take(k + 1) =~= s@.take(k as int).push(s@[k as int]));
            lemma_byte_len_push(s@.take(k as int), s@[k as int]);
            lemma_byte_len_concat(s@.take(k + 1), s@.skip(k + 1));
            assert(s@.take(k + 1) + s@.skip(k + 1) =~= s@);
        }
        n = n + utf8_width(s[k]);
        k += 1;
    }
}

/// A copy of `s[from..to]`.
pub fn string_of(s: &[char], from: usize, to: usize) -> (r: String)
    requires
        from <= to <= s@.len(),
    ensures
        r@ == s@.subrange(from as int, to as int),
{
    let mut r = String::new();
    let mut i = from;
    while i < to
        invariant
            from <= i <= to <= s@.len(),
            r@ == s@.subrange(from as int, i as int),
        decreases to - i,
    {
        push_char(&mut r, s[i]);
        i += 1;
        assert(r@ =~= s@.subrange(from as int, i as int));
    }
    r
}

/// `s` with each line break turned into one space: a `\n` followed by a `\r`
/// counts as one break, and so does a lone `\n` or `\r`.
pub open spec fn breaks_to_spaces(s: Seq<char>) -> Seq<char>
    decreases s.len(),
{
    if s.len() == 0 {
        s
    } else if s.len() >= 2 && s[0] == '\n' && s[1] == '\r' {
        seq![' '] + breaks_to_spaces(s.skip(2))
    } else if s[0] == '\n' || s[0] == '\r' {
        seq![' '] + breaks_to_spaces(s.skip(1))
    } else {
        seq![s[0]] + breaks_to_spaces(s.skip(1))
    }
}

/// `s` without its `\n` and `\r` characters.
pub open spec fn strip_breaks(s: Seq<char>) -> Seq<char>
    decreases s.len(),
{
    if s.len() == 0 {
        s
    } else if s[0] == '\n' || s[0] == '\r' {
        strip_breaks(s.skip(1))
    } else {
        seq![s[0]] + strip_breaks(s.skip(1))
    }
}

/// `s[from..to]` with each line break turned into one space.
pub fn breaks_to_spaces_exec(s: &[char], from: usize, to: usize) -> (r: Vec<char>)
    requires
        from <= to <= s@.len(),
    ensures
        r@ == breaks_to_spaces(s@.subrange(from as int, to as int)),
{
    let ghost whole = s@.subrange(from as int, to as int);
    let mut r: Vec<char> = Vec::new();
    let mut i = from;
    while i < to
        invariant
            from <= i <= to <= s@.len(),
            whole == s@.subrange(from as int, to as int),
            r@ + breaks_to_spaces(s@.subrange(i as int, to as int)) == breaks_to_spaces(whole),
        decreases to - i,
    {
        let ghost rest = s@.subrange(i as int, to as int);
        if i + 1 < to && s[i] == '\n' && s[i + 1] == '\r' {
            proof {
                assert(rest.skip(2) =~= s@.subrange(i + 2, to as int));
                assert(r@.push(' ') + breaks_to_spaces(rest.skip(2)) =~= r@ + (seq![' ']
                    + breaks_to_spaces(rest.skip(2))));
            }
            r.push(' ');
            i += 2;
        } else {
            proof {
                assert(rest.skip(1) =~= s@.subrange(i + 1, to as int));
                assert(r@.push(' ') + breaks_to_spaces(rest.skip(1)) =~= r@ + (seq![' ']
                    + breaks_to_spaces(rest.skip(1))));
                assert(r@.push(s@[i as int]) + breaks_to_spaces(rest.skip(1)) =~= r@ + (seq![
                    s@[i as int],
                ] + breaks_to_spaces(rest.skip(1))));
            }
            if s[i] == '\n' || s[i] == '\r' {
                r.push(' ');
            } else {
                r.push(s[i]);
            }
            i += 1;
        }
    }
    assert(s@.subrange(i as int, to as int) =~= Seq::<char>::empty());
    assert(r@ =~= breaks_to_spaces(whole));
    r
}

/// A copy of `s[from..to]` without its `\n` and `\r` characters.
pub fn strip_breaks_exec(s: &[char], from: usize, to: usize) -> (r: String)
    requires
        from <= to <= s@.len(),
    ensures
        r@ == strip_breaks(s@.subrange(from as int, to as int)),
{
    let ghost whole = s@.subrange(from as int, to as int);
    let mut r = String::new();
    let mut i = from;
    while i < to
        invariant
            from <= i <= to <= s@.len(),
            whole == s@.subrange(from as int, to as int),
            r@ + strip_breaks(s@.subrange(i as int, to as int)) == strip_breaks(whole),
        decreases to - i,
    {
        let ghost rest = s@.subrange(i as int, to as int);
        proof {
            assert(rest.skip(1) =~= s@.subrange(i + 1, to as int));
            assert(r@.push(s@[i as int]) + strip_breaks(rest.skip(1)) =~= r@ + (seq![s@[i as int]]
                + strip_breaks(rest.skip(1))));
        }
        if s[i] != '\n' && s[i] != '\r' {
            push_char(&mut r, s[i]);
        }
        i += 1;
    }
    assert(s@.subrange(i as int, to as int) =~= Seq::<char>::empty());
    assert(r@ =~= strip_breaks(whole));
    r
}

/// The characters that Unicode gives the White_Space property.
pub open spec fn white_space(c: char) -> bool {
    let v = c as u32;
    (0x09 <= v && v <= 0x0D) || v == 0x20 || v == 0x85 || v == 0xA0 || v == 0x1680 || (0x2000 <= v
        && v <= 0x200A) || v == 0x2028 || v == 0x2029 || v == 0x202F || v == 0x205F || v == 0x3000
}

/// Whether `c` is white space, as `char::is_whitespace` has it.
pub fn is_white_space(c: char) -> (r: bool)
    ensures
        r == white_space(c),
{
    let v = c as u32;
    (0x09 <= v && v <= 0x0D) || v == 0x20 || v == 0x85 || v == 0xA0 || v == 0x1680 || (0x2000 <= v
        && v <= 0x200A) || v == 0x2028 || v == 0x2029 || v == 0x202F || v == 0x205F || v == 0x3000
}

/// What `char::is_alphanumeric` answers for `c`: Unicode's alphabetic and
/// numeric characters.
pub uninterp spec fn alphanumeric(c: char) -> bool;

/// Relies on `char::is_alphanumeric`, whose answer depends on the character alone.
#[verifier::external_body]
pub fn is_alphanumeric(c: char) -> (r: bool)
    ensures
        r == alphanumeric(c),
{
    c.is_alphanumeric()
}

} // verus!
