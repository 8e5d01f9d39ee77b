//! Text as the syntax tree addresses it: by byte offsets into its UTF-8 form.

use vstd::prelude::*;
use vstd::string::*;
use vstd::utf8::*;

verus! {

/// Whether the bytes `start..end` of `text` can be taken out of it as text:
/// the range lies within the text and, unless it is empty, begins and ends
/// between characters.
pub open spec fn sliceable(text: Seq<char>, start: int, end: int) -> bool {
    let bytes = encode_utf8(text);
    &&& 0 <= start <= end <= bytes.len()
    &&& start == end || (is_char_boundary(bytes, start) && is_char_boundary(bytes, end))
}

/// The characters that the bytes `start..end` of `text` spell.
pub open spec fn slice_text(text: Seq<char>, start: int, end: int) -> Seq<char> {
    decode_utf8(encode_utf8(text).subrange(start, end))
}

/// Whether `a` and `b` hold the same characters.
pub fn same_text(a: &str, b: &str) -> (same: bool)
    ensures
        same == (a@ == b@),
{
    let x = a.as_bytes();
    let y = b.as_bytes();
    if x.len() != y.len() {
        return false;
    }
    let mut i: usize = 0;
    while i < x.len()
        invariant
            0 <= i <= x.len(),
            x.len() == y.len(),
            x@ == encode_utf8(a@),
            y@ == encode_utf8(b@),
            forall|j: int| 0 <= j < i ==> x@[j] == y@[j],
        decreases x.len() - i,
    {
        if x[i] != y[i] {
            return false;
        }
        i += 1;
    }
    proof {
        assert(x@ =~= y@);
        lemma_same_bytes_same_text(a@, b@);
    }
    true
}

/// The text that the bytes `start..end` of `content` spell, where they can
/// be taken out of it.
pub fn text_between<'a>(content: &'a str, start: usize, end: usize) -> (text: Option<&'a str>)
    ensures
        text.is_some() <==> sliceable(content@, start as int, end as int),
        text matches Some(s) ==> s@ == slice_text(content@, start as int, end as int),
{
    let ghost bytes = encode_utf8(content@);
    if start > end || end > content.as_bytes().len() {
        return None;
    }
    if start == end {
        let empty = "";
        proof {
            reveal_strlit("");
            assert(bytes.subrange(start as int, end as int) =~= Seq::<u8>::empty());
        }
        return Some(empty);
    }
    if !content.is_char_boundary(start) || !content.is_char_boundary(end) {
        return None;
    }
    let (head, _) = content.split_at(end);
    proof {
        encode_utf8_valid_utf8(content@);
        encode_utf8_valid_utf8(head@);
        is_char_boundary_iff_not_is_continuation_byte(bytes, start as int);
        is_char_boundary_iff_not_is_continuation_byte(head.spec_bytes(), start as int);
    }
    let (_, middle) = head.split_at(start);
    proof {
        assert(middle.spec_bytes() =~= bytes.subrange(start as int, end as int));
        encode_utf8_decode_utf8(middle@);
    }
    Some(middle)
}

/// Two texts with the same bytes are the same text.
pub proof fn lemma_same_bytes_same_text(a: Seq<char>, b: Seq<char>)
    requires
        encode_utf8(a) == encode_utf8(b),
    ensures
        a == b,
{
    encode_utf8_decode_utf8(a);
    encode_utf8_decode_utf8(b);
}

} // verus!
