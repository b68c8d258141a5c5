//! Text as sequences of characters: the slash-separated paths of the virtual file
//! systems are cut, trimmed, joined and compared here.

use vstd::prelude::*;
use vstd::string::*;
use vstd::utf8::*;

verus! {

/// [`String::push`] appends one character to the end of the string.
pub assume_specification[ String::push ](s: &mut String, c: char)
    ensures
        final(s)@ == old(s)@.push(c),
;

/// The lower-case form that [`str::to_lowercase`] gives to a text.
pub uninterp spec fn lowercase(text: Seq<char>) -> Seq<char>;

/// An ASCII capital as its small letter; every other character as it is.
pub open spec fn ascii_lower(c: char) -> char {
    if 'A' <= c <= 'Z' {
        ((c as u32) + 32) as char
    } else {
        c
    }
}

/// A text with every ASCII capital as its small letter.
pub open spec fn ascii_lowercase(text: Seq<char>) -> Seq<char> {
    Seq::new(text.len(), |i: int| ascii_lower(text[i]))
}

/// Calls [`str::to_lowercase`]. The result depends on the text alone; Unicode's
/// mapping as a whole is not written out, on ASCII text it is [`ascii_lowercase`].
#[verifier::external_body]
pub(crate) fn to_lowercase(text: &str) -> (lowered: String)
    ensures
        lowered@ == lowercase(text@),
        is_ascii_chars(text@) ==> lowered@ == ascii_lowercase(text@),
{
    text.to_lowercase()
}

/// The text that [`String::from_utf8_lossy`] makes of a run of bytes.
pub uninterp spec fn lossy_text(bytes: Seq<u8>) -> Seq<char>;

/// Whether `text` is what a run of bytes is read as: valid UTF-8 as it is, anything else as
/// [`String::from_utf8_lossy`] mends it.
pub open spec fn is_read_as(text: Seq<char>, bytes: Seq<u8>) -> bool {
    &&& text == lossy_text(bytes)
    &&& valid_utf8(bytes) ==> text == decode_utf8(bytes)
}

/// Calls [`String::from_utf8_lossy`]. Valid UTF-8 is taken as it is; how invalid
/// stretches are replaced is not written out.
#[verifier::external_body]
pub(crate) fn text_from_utf8_lossy(bytes: &[u8]) -> (decoded: String)
    ensures
        decoded@ == lossy_text(bytes@),
        valid_utf8(bytes@) ==> decoded@ == decode_utf8(bytes@),
{
    String::from_utf8_lossy(bytes).to_string()
}

/// The characters of a text.
pub fn chars_of(text: &str) -> (chars: Vec<char>)
    ensures
        chars@ == text@,
{
    let mut chars: Vec<char> = Vec::new();
    for c in it: text.chars()
        invariant
            it.seq() == text@,
            chars@ == it.seq().take(it.index() as int),
    {
        chars.push(c);
        assert(chars@ =~= it.seq().take(it.index() + 1));
    }
    chars
}

/// Two texts are the same exactly when their encodings are.
pub proof fn lemma_encoding_is_injective(a: Seq<char>, b: Seq<char>)
    ensures
        encode_utf8(a) == encode_utf8(b) <==> a == b,
{
    encode_utf8_decode_utf8(a);
    encode_utf8_decode_utf8(b);
}

/// Whether two texts are the same.
pub fn same_text(a: &str, b: &str) -> (same: bool)
    ensures
        same == (a@ == b@),
{
    proof {
        lemma_encoding_is_injective(a@, b@);
    }
    let x = a.as_bytes();
    let y = b.as_bytes();
    if x.len() != y.len() {
        return false;
    }
    let mut i: usize = 0;
    while i < x.len()
        invariant
            x@ == encode_utf8(a@),
            y@ == encode_utf8(b@),
            x@.len() == y@.len(),
            i <= x@.len(),
            forall|j: int| 0 <= j < i ==> x@[j] == y@[j],
            encode_utf8(a@) == encode_utf8(b@) <==> a@ == b@,
        decreases x@.len() - i,
    {
        if x[i] != y[i] {
            assert(x@ != y@);
            return false;
        }
        i += 1;
    }
    assert(x@ =~= y@);
    true
}

/// A copy of some bytes.
pub fn copy_of(bytes: &[u8]) -> (copy: Vec<u8>)
    ensures
        copy@ == bytes@,
{
    let mut copy: Vec<u8> = Vec::new();
    copy.extend_from_slice(bytes);
    assert(copy@ =~= bytes@);
    copy
}

/// The encoding of a text.
pub fn bytes_of(text: &str) -> (bytes: Vec<u8>)
    ensures
        bytes@ == encode_utf8(text@),
{
    copy_of(text.as_bytes())
}

/// The text held by the characters `from..to`.
pub fn text_between(chars: &[char], from: usize, to: usize) -> (text: String)
    requires
        from <= to <= chars@.len(),
    ensures
        text@ == chars@.subrange(from as int, to as int),
{
    let mut text = String::new();
    let mut i: usize = from;
    while i < to
        invariant
            from <= i <= to <= chars@.len(),
            text@ == chars@.subrange(from as int, i as int),
        decreases to - i,
    {
        text.push(chars[i]);
        i += 1;
        assert(text@ =~= chars@.subrange(from as int, i as int));
    }
    text
}

/// One text after another.
pub fn joined(a: &str, b: &str) -> (text: String)
    ensures
        text@ == a@ + b@,
{
    let mut text = a.to_owned();
    text.append(b);
    text
}

/// Three texts in a row.
pub fn joined3(a: &str, b: &str, c: &str) -> (text: String)
    ensures
        text@ == a@ + b@ + c@,
{
    let mut text = a.to_owned();
    text.append(b);
    text.append(c);
    text
}

/// Whether `text` ends with `suffix`.
pub fn ends_with(text: &str, suffix: &str) -> (ends: bool)
    ensures
        ends == suffix@.is_suffix_of(text@),
{
    let t = chars_of(text);
    let s = chars_of(suffix);
    if s.len() > t.len() {
        return false;
    }
    let shift: usize = t.len() - s.len();
    let mut i: usize = 0;
    while i < s.len()
        invariant
            t@ == text@,
            s@ == suffix@,
            shift == t.len() - s.len(),
            i <= s@.len(),
            forall|j: int| 0 <= j < i ==> s@[j] == t@[shift + j],
        decreases s@.len() - i,
    {
        if t[shift + i] != s[i] {
            assert(t@.subrange(shift as int, t@.len() as int)[i as int] != s@[i as int]);
            return false;
        }
        i += 1;
    }
    assert(s@ =~= t@.subrange(shift as int, t@.len() as int));
    true
}

/// Whether the characters `text` begin with `prefix`.
pub fn begins_with(text: &[char], prefix: &[char]) -> (begins: bool)
    ensures
        begins == prefix@.is_prefix_of(text@),
{
    if prefix.len() > text.len() {
        return false;
    }
    let mut i: usize = 0;
    while i < prefix.len()
        invariant
            prefix@.len() <= text@.len(),
            i <= prefix@.len(),
            forall|j: int| 0 <= j < i ==> prefix@[j] == text@[j],
        decreases prefix@.len() - i,
    {
        if text[i] != prefix[i] {
            assert(text@.subrange(0, prefix@.len() as int)[i as int] != prefix@[i as int]);
            return false;
        }
        i += 1;
    }
    assert(prefix@ =~= text@.subrange(0, prefix@.len() as int));
    true
}

/// A text with every backslash as a slash.
pub open spec fn slash_form(text: Seq<char>) -> Seq<char> {
    Seq::new(
        text.len(),
        |i: int|
            if text[i] == '\\' {
                '/'
            } else {
                text[i]
            },
    )
}

/// A text with every backslash as a slash.
pub fn with_slashes(text: &str) -> (slashed: String)
    ensures
        slashed@ == slash_form(text@),
{
    let chars = chars_of(text);
    let mut slashed = String::new();
    let mut i: usize = 0;
    while i < chars.len()
        invariant
            chars@ == text@,
            i <= chars@.len(),
            slashed@ == slash_form(text@).take(i as int),
        decreases chars@.len() - i,
    {
        if chars[i] == '\\' {
            slashed.push('/');
        } else {
            slashed.push(chars[i]);
        }
        i += 1;
        assert(slashed@ =~= slash_form(text@).take(i as int));
    }
    assert(slash_form(text@).take(i as int) =~= slash_form(text@));
    slashed
}

/// A text without the slashes it begins with.
pub open spec fn trim_start(text: Seq<char>) -> Seq<char>
    decreases text.len(),
{
    if text.len() > 0 && text[0] == '/' {
        trim_start(text.drop_first())
    } else {
        text
    }
}

/// A text without the slashes it ends with.
pub open spec fn trim_end(text: Seq<char>) -> Seq<char>
    decreases text.len(),
{
    if text.len() > 0 && text.last() == '/' {
        trim_end(text.drop_last())
    } else {
        text
    }
}

/// A text without the slashes at either end.
pub open spec fn trimmed(text: Seq<char>) -> Seq<char> {
    trim_end(trim_start(text))
}

/// The number of slashes that some characters begin with.
fn leading_slashes(chars: &[char]) -> (count: usize)
    ensures
        count <= chars@.len(),
        trim_start(chars@) == chars@.skip(count as int),
{
    let mut count: usize = 0;
    assert(chars@.skip(0) =~= chars@);
    while count < chars.len() && chars[count] == '/'
        invariant
            count <= chars@.len(),
            trim_start(chars@) == trim_start(chars@.skip(count as int)),
        decreases chars@.len() - count,
    {
        assert(chars@.skip(count as int).drop_first() =~= chars@.skip(count + 1));
        count += 1;
    }
    count
}

/// Where the characters `from..` end once the slashes at their end are gone.
fn end_before_slashes(chars: &[char], from: usize) -> (end: usize)
    requires
        from <= chars@.len(),
    ensures
        from <= end <= chars@.len(),
        trim_end(chars@.skip(from as int)) == chars@.subrange(from as int, end as int),
{
    let mut end: usize = chars.len();
    assert(chars@.subrange(from as int, end as int) =~= chars@.skip(from as int));
    while from < end && chars[end - 1] == '/'
        invariant
            from <= end <= chars@.len(),
            trim_end(chars@.skip(from as int)) == trim_end(
                chars@.subrange(from as int, end as int),
            ),
        decreases end,
    {
        assert(chars@.subrange(from as int, end as int).drop_last() =~= chars@.subrange(
            from as int,
            end - 1,
        ));
        end -= 1;
    }
    end
}

/// A text without the slashes it begins with.
pub fn without_leading_slashes(text: &str) -> (rest: String)
    ensures
        rest@ == trim_start(text@),
{
    let chars = chars_of(text);
    let from = leading_slashes(chars.as_slice());
    assert(chars@.skip(from as int) =~= chars@.subrange(from as int, chars@.len() as int));
    text_between(chars.as_slice(), from, chars.len())
}

/// A text without the slashes at either end.
pub fn without_outer_slashes(text: &str) -> (rest: String)
    ensures
        rest@ == trimmed(text@),
{
    let chars = chars_of(text);
    let from = leading_slashes(chars.as_slice());
    let to = end_before_slashes(chars.as_slice(), from);
    text_between(chars.as_slice(), from, to)
}

/// The place of the first slash, or the length of a text that has none.
pub open spec fn first_slash(text: Seq<char>) -> int
    decreases text.len(),
{
    if text.len() == 0 || text[0] == '/' {
        0
    } else {
        1 + first_slash(text.drop_first())
    }
}

/// What stands before the first slash.
pub open spec fn head(text: Seq<char>) -> Seq<char> {
    text.take(first_slash(text))
}

/// Whether a text holds a slash.
pub open spec fn has_slash(text: Seq<char>) -> bool {
    first_slash(text) < text.len()
}

/// What [`first_slash`] finds is a slash, and none stands before it.
pub proof fn lemma_first_slash(text: Seq<char>)
    ensures
        0 <= first_slash(text) <= text.len(),
        forall|i: int| 0 <= i < first_slash(text) ==> text[i] != '/',
        first_slash(text) < text.len() ==> text[first_slash(text)] == '/',
    decreases text.len(),
{
    if text.len() > 0 && text[0] != '/' {
        lemma_first_slash(text.drop_first());
        assert forall|i: int| 0 <= i < first_slash(text) implies text[i] != '/' by {
            if i > 0 {
                assert(text.drop_first()[i - 1] == text[i]);
            }
        }
    }
}

/// The first slash is where a text first has one.
pub proof fn lemma_first_slash_is(text: Seq<char>, at: int)
    requires
        0 <= at <= text.len(),
        forall|i: int| 0 <= i < at ==> text[i] != '/',
        at < text.len() ==> text[at] == '/',
    ensures
        first_slash(text) == at,
{
    lemma_first_slash(text);
}

/// The place of the first slash, or the number of characters if there is none.
pub fn find_slash(chars: &[char]) -> (at: usize)
    ensures
        at == first_slash(chars@),
        at <= chars@.len(),
{
    let mut at: usize = 0;
    while at < chars.len() && chars[at] != '/'
        invariant
            at <= chars@.len(),
            forall|i: int| 0 <= i < at ==> chars@[i] != '/',
        decreases chars@.len() - at,
    {
        at += 1;
    }
    proof {
        lemma_first_slash_is(chars@, at as int);
    }
    at
}

} // verus!
