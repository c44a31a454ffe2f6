//! A text together with its characters and the byte offset of each of them,
//! so that positions can be moved between character and byte units and
//! sub-slices of the text can be taken at character positions.

use vstd::prelude::*;
use vstd::utf8::*;

verus! {

/// Number of bytes of the UTF-8 encoding of `chars`.
pub open spec fn byte_len(chars: Seq<char>) -> int {
    encode_utf8(chars).len() as int
}

/// Byte offset of the character at index `i` of `chars`.
pub open spec fn byte_offset(chars: Seq<char>, i: int) -> int {
    byte_len(chars.take(i))
}

/// Number of bytes of the UTF-8 encoding of one character.
pub open spec fn width(c: char) -> int {
    encode_scalar(c as u32).len() as int
}

/// Number of bytes that `c` takes in UTF-8 (std's `char::len_utf8`).
pub fn utf8_width(c: char) -> (w: usize)
    ensures
        w == width(c),
        1 <= w <= 4,
{
    let v = c as u32;
    proof {
        char_is_scalar(c);
    }
    if v < 0x80 {
        1
    } else if v < 0x800 {
        2
    } else if v < 0x10000 {
        3
    } else {
        4
    }
}

/// The encoding of a concatenation is the concatenation of the encodings.
pub proof fn lemma_encode_append(a: Seq<char>, b: Seq<char>)
    ensures
        encode_utf8(a + b) == encode_utf8(a) + encode_utf8(b),
    decreases a.len(),
{
    if a.len() == 0 {
        assert(a + b =~= b);
        assert(encode_utf8(a) + encode_utf8(b) =~= encode_utf8(b));
    } else {
        lemma_encode_append(a.drop_first(), b);
        assert((a + b).drop_first() =~= a.drop_first() + b);
        assert((a + b)[0] == a[0]);
        assert(encode_utf8(a + b) =~= encode_utf8(a) + encode_utf8(b));
    }
}

/// Byte offsets grow by the width of each character.
pub proof fn lemma_byte_offset_step(chars: Seq<char>, i: int)
    requires
        0 <= i < chars.len(),
    ensures
        byte_offset(chars, i + 1) == byte_offset(chars, i) + width(chars[i]),
        width(chars[i]) >= 1,
{
    assert(chars.take(i + 1) =~= chars.take(i) + seq![chars[i]]);
    lemma_encode_append(chars.take(i), seq![chars[i]]);
    assert(seq![chars[i]].drop_first() =~= Seq::<char>::empty());
    reveal_with_fuel(encode_utf8, 2);
    assert(encode_utf8(seq![chars[i]]) =~= encode_scalar(chars[i] as u32));
    char_is_scalar(chars[i]);
}

/// The bytes of a sub-range of characters are the matching sub-range of bytes.
pub proof fn lemma_byte_subrange(chars: Seq<char>, i: int, j: int)
    requires
        0 <= i <= j <= chars.len(),
    ensures
        encode_utf8(chars.subrange(i, j)) == encode_utf8(chars).subrange(
            byte_offset(chars, i),
            byte_offset(chars, j),
        ),
        0 <= byte_offset(chars, i) <= byte_offset(chars, j) <= byte_len(chars),
{
    let a = chars.take(i);
    let b = chars.subrange(i, j);
    let c = chars.skip(j);
    assert(chars =~= a + b + c);
    assert(chars.take(j) =~= a + b);
    lemma_encode_append(a, b);
    lemma_encode_append(a + b, c);
    assert(encode_utf8(chars).subrange(byte_offset(chars, i), byte_offset(chars, j))
        =~= encode_utf8(b));
}

/// Every character position is a character boundary of the encoding.
pub proof fn lemma_offset_is_boundary(chars: Seq<char>, i: int)
    requires
        0 <= i <= chars.len(),
    ensures
        is_char_boundary(encode_utf8(chars), byte_offset(chars, i)),
    decreases i,
{
    if i > 0 {
        let bytes = encode_utf8(chars);
        encode_utf8_first_scalar(chars);
        encode_utf8_valid_utf8(chars);
        assert(pop_first_scalar(bytes) =~= encode_utf8(chars.drop_first()));
        lemma_offset_is_boundary(chars.drop_first(), i - 1);
        assert(chars.take(i) =~= seq![chars[0]] + chars.drop_first().take(i - 1));
        lemma_encode_append(seq![chars[0]], chars.drop_first().take(i - 1));
        assert(seq![chars[0]].drop_first() =~= Seq::<char>::empty());
        reveal_with_fuel(encode_utf8, 2);
        assert(encode_utf8(seq![chars[0]]) =~= encode_scalar(chars[0] as u32));
        char_is_scalar(chars[0]);
        lemma_byte_subrange(chars, 0, i);
        let idx = byte_offset(chars, i);
        assert(idx == length_of_first_scalar(bytes) + byte_offset(chars.drop_first(), i - 1));
        assert(0 < idx <= bytes.len());
        assert(is_char_boundary(bytes, idx) == is_char_boundary(
            pop_first_scalar(bytes),
            idx - length_of_first_scalar(bytes),
        ));
    } else {
        encode_utf8_valid_utf8(chars);
        assert(chars.take(0) =~= Seq::<char>::empty());
    }
}

/// Byte offsets strictly grow with the character index.
pub proof fn lemma_byte_offset_strict(chars: Seq<char>, i: int, j: int)
    requires
        0 <= i < j <= chars.len(),
    ensures
        byte_offset(chars, i) < byte_offset(chars, j),
    decreases j - i,
{
    lemma_byte_offset_step(chars, i);
    if i + 1 < j {
        lemma_byte_offset_strict(chars, i + 1, j);
    }
}

/// A character takes at least one byte, so a character index never exceeds
/// its byte offset.
pub proof fn lemma_chars_le_bytes(chars: Seq<char>, i: int)
    requires
        0 <= i <= chars.len(),
    ensures
        i <= byte_offset(chars, i),
    decreases i,
{
    if i > 0 {
        lemma_chars_le_bytes(chars, i - 1);
        lemma_byte_offset_step(chars, i - 1);
    } else {
        assert(chars.take(0) =~= Seq::<char>::empty());
    }
}

/// Unicode `White_Space` (what std's `char::is_whitespace` tests).
pub open spec fn is_ws(c: char) -> bool {
    let v = c as u32;
    ||| 0x09 <= v <= 0x0d
    ||| v == 0x20
    ||| v == 0x85
    ||| v == 0xa0
    ||| v == 0x1680
    ||| 0x2000 <= v <= 0x200a
    ||| v == 0x2028
    ||| v == 0x2029
    ||| v == 0x202f
    ||| v == 0x205f
    ||| v == 0x3000
}

/// Whether `c` is Unicode white space (std's `char::is_whitespace`).
pub fn is_whitespace(c: char) -> (b: bool)
    ensures
        b == is_ws(c),
{
    let v = c as u32;
    (0x09 <= v && v <= 0x0d) || v == 0x20 || v == 0x85 || v == 0xa0 || v == 0x1680 || (0x2000
        <= v && v <= 0x200a) || v == 0x2028 || v == 0x2029 || v == 0x202f || v == 0x205f || v
        == 0x3000
}

/// A text with its characters and the byte offset of every character.
pub struct CharText<'a> {
    text: &'a str,
    chars: Vec<char>,
    offsets: Vec<usize>,
}

impl<'a> CharText<'a> {
    /// The characters of the text.
    pub closed spec fn chars(&self) -> Seq<char> {
        self.chars@
    }

    /// The text itself.
    pub closed spec fn source(&self) -> &'a str {
        self.text
    }

    /// The internal tables agree with the text.
    pub closed spec fn wf(&self) -> bool {
        &&& self.chars@ == self.text@
        &&& self.offsets@.len() == self.chars@.len() + 1
        &&& forall|i: int|
            0 <= i <= self.chars@.len() ==> #[trigger] self.offsets@[i] == byte_offset(
                self.chars@,
                i,
            )
        &&& byte_len(self.chars@) <= usize::MAX
        &&& self.chars@.len() <= usize::MAX
    }

    /// The text has at most `usize::MAX` characters and bytes.
    pub proof fn lemma_wf_bounds(&self)
        requires
            self.wf(),
        ensures
            self.chars().len() <= usize::MAX,
            byte_len(self.chars()) <= usize::MAX,
    {
    }

    /// Build the tables of `text`.
    pub fn new(text: &'a str) -> (ct: CharText<'a>)
        ensures
            ct.wf(),
            ct.chars() == text@,
            ct.source() == text,
    {
        let total = text.as_bytes().len();
        proof {
            lemma_byte_subrange(text@, 0, text@.len() as int);
            assert(text@.take(text@.len() as int) =~= text@);
        }
        let mut chars: Vec<char> = Vec::new();
        let mut offsets: Vec<usize> = Vec::new();
        let mut pos: usize = 0;
        offsets.push(0);
        proof {
            assert(text@.take(0) =~= Seq::<char>::empty());
        }
        for c in it: text.chars()
            invariant
                total == byte_len(text@),
                it.seq() == text@,
                chars@ == text@.take(it.index() as int),
                offsets@.len() == chars@.len() + 1,
                forall|i: int|
                    0 <= i <= chars@.len() ==> #[trigger] offsets@[i] == byte_offset(text@, i),
                pos == byte_offset(text@, chars@.len() as int),
        {
            proof {
                lemma_byte_offset_step(text@, chars@.len() as int);
                lemma_byte_subrange(text@, 0, chars@.len() as int + 1);
            }
            let w = utf8_width(c);
            pos = pos + w;
            chars.push(c);
            offsets.push(pos);
            proof {
                assert(chars@ =~= text@.take(chars@.len() as int));
            }
        }
        let _ = chars.len();
        proof {
            assert(chars@ =~= text@);
            assert forall|i: int| 0 <= i <= chars@.len() implies #[trigger] offsets@[i]
                == byte_offset(chars@, i) by {
                assert(chars@ == text@);
            }
        }
        CharText { text, chars, offsets }
    }

    /// Number of characters.
    pub fn len(&self) -> (n: usize)
        requires
            self.wf(),
        ensures
            n == self.chars().len(),
    {
        self.chars.len()
    }

    /// The character at index `i`.
    pub fn char_at(&self, i: usize) -> (c: char)
        requires
            self.wf(),
            i < self.chars().len(),
        ensures
            c == self.chars()[i as int],
    {
        self.chars[i]
    }

    /// The byte offset of character index `i`.
    pub fn byte_pos(&self, i: usize) -> (b: usize)
        requires
            self.wf(),
            i <= self.chars().len(),
        ensures
            b == byte_offset(self.chars(), i as int),
    {
        self.offsets[i]
    }

    /// The character index whose byte offset is `b`, if `b` is a character
    /// boundary of the text (the end of the text included).
    pub fn char_index_of_byte(&self, b: usize) -> (r: Option<usize>)
        requires
            self.wf(),
        ensures
            match r {
                Some(i) => i <= self.chars().len() && byte_offset(self.chars(), i as int) == b,
                None => forall|i: int|
                    0 <= i <= self.chars().len() ==> byte_offset(self.chars(), i) != b,
            },
    {
        let n = self.chars.len();
        let mut lo: usize = 0;
        let mut hi: usize = n;
        while lo < hi
            invariant
                self.wf(),
                n == self.chars@.len(),
                lo <= hi <= n,
                forall|i: int| 0 <= i < lo ==> byte_offset(self.chars@, i) < b,
                forall|i: int| hi < i <= n ==> byte_offset(self.chars@, i) > b,
            decreases hi - lo,
        {
            let mid = lo + (hi - lo) / 2;
            let m = self.offsets[mid];
            if m == b {
                return Some(mid);
            } else if m < b {
                proof {
                    assert forall|i: int| 0 <= i < mid + 1 implies byte_offset(self.chars@, i)
                        < b by {
                        if i < mid {
                            lemma_byte_offset_strict(self.chars@, i, mid as int);
                        }
                    }
                }
                lo = mid + 1;
            } else {
                proof {
                    assert forall|i: int| mid < i <= n implies byte_offset(self.chars@, i) > b by {
                        lemma_byte_offset_strict(self.chars@, mid as int, i);
                    }
                }
                hi = mid;
            }
        }
        if self.offsets[lo] == b {
            Some(lo)
        } else {
            None
        }
    }

    /// The sub-slice of the text between character indices `i` and `j`.
    pub fn slice(&self, i: usize, j: usize) -> (s: &'a str)
        requires
            self.wf(),
            i <= j <= self.chars().len(),
        ensures
            s@ == self.chars().subrange(i as int, j as int),
    {
        let t = Ghost(self.chars@);
        let bi = self.offsets[i];
        let bj = self.offsets[j];
        proof {
            lemma_offset_is_boundary(t@, i as int);
            lemma_byte_subrange(t@, i as int, j as int);
            lemma_byte_subrange(t@, i as int, t@.len() as int);
            lemma_byte_subrange(t@, 0, t@.len() as int);
            assert(t@.take(t@.len() as int) =~= t@);
            assert(t@.subrange(i as int, t@.len() as int) =~= t@.skip(i as int));
        }
        let (_, rest) = self.text.split_at(bi);
        proof {
            encode_utf8_decode_utf8(rest@);
            encode_utf8_decode_utf8(t@.skip(i as int));
            assert(rest@ == t@.skip(i as int));
            lemma_offset_is_boundary(rest@, (j - i) as int);
            assert(rest@.take((j - i) as int) =~= t@.subrange(i as int, j as int));
            lemma_byte_subrange(rest@, 0, (j - i) as int);
            assert(rest@.take(0) =~= Seq::<char>::empty());
        }
        let (piece, _) = rest.split_at(bj - bi);
        proof {
            lemma_byte_subrange(rest@, 0, (j - i) as int);
            assert(rest@.subrange(0, (j - i) as int) =~= rest@.take((j - i) as int));
            encode_utf8_decode_utf8(piece@);
            encode_utf8_decode_utf8(t@.subrange(i as int, j as int));
        }
        piece
    }
}

} // verus!
