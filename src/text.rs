//! Text that is sliced by character position rather than by byte offset.
use vstd::prelude::*;
use vstd::std_specs::iter::IteratorSpec;
use vstd::string::StringExecFns;
use vstd::utf8::*;

verus! {

broadcast use vstd::utf8::encode_utf8_decode_utf8, vstd::utf8::encode_utf8_valid_utf8;

/// Where character position `i` of `s` starts in the UTF-8 encoding of `s`.
pub open spec fn byte_offset(s: Seq<char>, i: int) -> int {
    encode_utf8(s.take(i)).len() as int
}

/// Encoding a concatenation encodes each part in turn.
proof fn lemma_encode_concat(a: Seq<char>, b: Seq<char>)
    ensures
        encode_utf8(a + b) == encode_utf8(a) + encode_utf8(b),
    decreases a.len(),
{
    if a.len() == 0 {
        assert(a + b =~= b);
        assert(encode_utf8(a) + encode_utf8(b) =~= encode_utf8(b));
    } else {
        assert((a + b).drop_first() =~= a.drop_first() + b);
        lemma_encode_concat(a.drop_first(), b);
        assert(encode_utf8(a + b) =~= encode_utf8(a) + encode_utf8(b));
    }
}

/// One character is encoded as its scalar value.
pub(crate) proof fn lemma_encode_char(c: char)
    ensures
        encode_utf8(seq![c]) == encode_scalar(c as u32),
{
    reveal_with_fuel(encode_utf8, 2);
    assert(seq![c].drop_first() =~= Seq::<char>::empty());
    assert(encode_utf8(seq![c]) =~= encode_scalar(c as u32));
}

/// The offset of position `i` splits the encoding of `s` into the encodings of
/// the characters before and after `i`.
pub(crate) proof fn lemma_offset_split(s: Seq<char>, i: int)
    requires
        0 <= i <= s.len(),
    ensures
        encode_utf8(s) == encode_utf8(s.take(i)) + encode_utf8(s.skip(i)),
        0 <= byte_offset(s, i) <= encode_utf8(s).len(),
        encode_utf8(s).subrange(0, byte_offset(s, i)) == encode_utf8(s.take(i)),
        encode_utf8(s).subrange(byte_offset(s, i), encode_utf8(s).len() as int) == encode_utf8(
            s.skip(i),
        ),
{
    assert(s =~= s.take(i) + s.skip(i));
    lemma_encode_concat(s.take(i), s.skip(i));
    let e = encode_utf8(s);
    assert(e.subrange(0, byte_offset(s, i)) =~= encode_utf8(s.take(i)));
    assert(e.subrange(byte_offset(s, i), e.len() as int) =~= encode_utf8(s.skip(i)));
}

/// The offset of every character position is a character boundary.
proof fn lemma_offset_is_boundary(s: Seq<char>, i: int)
    requires
        0 <= i <= s.len(),
    ensures
        is_char_boundary(encode_utf8(s), byte_offset(s, i)),
    decreases s.len(),
{
    let bytes = encode_utf8(s);
    if i == 0 {
        assert(s.take(0) =~= Seq::<char>::empty());
    } else {
        encode_utf8_first_scalar(s);
        let rest = s.drop_first();
        let w = encode_scalar(s[0] as u32).len() as int;
        lemma_offset_split(s, i);
        assert(pop_first_scalar(bytes) =~= encode_utf8(rest));
        assert(s.take(i).drop_first() =~= rest.take(i - 1));
        assert(byte_offset(s, i) - w == byte_offset(rest, i - 1));
        lemma_offset_is_boundary(rest, i - 1);
    }
}

/// Offsets grow with the position, and position `j` lies beyond `i` by the
/// offset of `j - i` in the text from `i` on.
proof fn lemma_offset_shift(s: Seq<char>, i: int, j: int)
    requires
        0 <= i <= j <= s.len(),
    ensures
        byte_offset(s, j) == byte_offset(s, i) + byte_offset(s.skip(i), j - i),
        byte_offset(s, i) <= byte_offset(s, j),
{
    assert(s.take(j) =~= s.take(i) + s.skip(i).take(j - i));
    lemma_encode_concat(s.take(i), s.skip(i).take(j - i));
}

/// The number of bytes in the UTF-8 encoding of `c`.
fn utf8_width(c: char) -> (w: usize)
    ensures
        w == encode_scalar(c as u32).len(),
{
    let v: u32 = c as u32;
    if v < 0x80 {
        1
    } else if v < 0x800 {
        2
    } else if v < 0x10000 {
        3
    } else {
        4
    }
}

/// Cuts `s` at the byte offset `mid` of character position `i`.
pub(crate) fn cut_at<'a>(s: &'a str, Ghost(i): Ghost<int>, mid: usize) -> (r: (&'a str, &'a str))
    requires
        0 <= i <= s@.len(),
        mid == byte_offset(s@, i),
    ensures
        r.0@ == s@.take(i),
        r.1@ == s@.skip(i),
{
    proof {
        lemma_offset_is_boundary(s@, i);
        lemma_offset_split(s@, i);
    }
    let r = s.split_at(mid);
    proof {
        encode_utf8_decode_utf8(r.0@);
        encode_utf8_decode_utf8(r.1@);
        encode_utf8_decode_utf8(s@.take(i));
        encode_utf8_decode_utf8(s@.skip(i));
    }
    r
}

/// The characters of `s`, one by one.
pub(crate) fn chars_of(s: &str) -> (v: Vec<char>)
    ensures
        v@ == s@,
{
    let mut v: Vec<char> = Vec::new();
    let mut it = s.chars();
    loop
        invariant
            v@ + it.remaining() == s@,
            it.decrease() is Some,
        ensures
            v@ == s@,
        decreases it.decrease()->0,
    {
        match it.next() {
            Some(c) => {
                proof {
                    assert(v@.push(c) + it.remaining() =~= s@);
                }
                v.push(c);
            },
            None => {
                proof {
                    assert(v@ =~= s@);
                }
                break ;
            },
        }
    }
    v
}

/// Text with constant-time access to its substrings by character position.
pub struct CharString<'a> {
    string: &'a str,
    char2byte: Vec<usize>,
}

impl<'a> View for CharString<'a> {
    type V = Seq<char>;

    closed spec fn view(&self) -> Seq<char> {
        self.string@
    }
}

impl<'a> CharString<'a> {
    /// One offset for each character position and one for the end, each the
    /// offset of that position in the encoding.
    #[verifier::type_invariant]
    spec fn offsets_match(&self) -> bool {
        &&& self.char2byte@.len() == self.string@.len() + 1
        &&& forall|i: int|
            0 <= i <= self.string@.len() ==> #[trigger] self.char2byte@[i] == byte_offset(
                self.string@,
                i,
            )
    }

    /// Builds the position-to-offset table of `string`.
    pub fn new(string: &'a str) -> (r: CharString<'a>)
        ensures
            r@ == string@,
    {
        let total: usize = string.as_bytes().len();
        let ghost s = string@;
        let mut char2byte: Vec<usize> = Vec::new();
        let mut pos: usize = 0;
        let mut it = string.chars();
        let ghost mut seen: Seq<char> = Seq::empty();
        proof {
            lemma_offset_split(s, s.len() as int);
            assert(s.take(s.len() as int) =~= s);
        }
        loop
            invariant
                seen + it.remaining() == s,
                it.decrease() is Some,
                total == encode_utf8(s).len(),
                char2byte@.len() == seen.len(),
                pos == byte_offset(s, seen.len() as int),
                forall|j: int| 0 <= j < seen.len() ==> #[trigger] char2byte@[j] == byte_offset(s, j),
            ensures
                seen == s,
                total == encode_utf8(s).len(),
                char2byte@.len() == seen.len(),
                pos == byte_offset(s, seen.len() as int),
                forall|j: int| 0 <= j < seen.len() ==> #[trigger] char2byte@[j] == byte_offset(s, j),
            decreases it.decrease()->0,
        {
            let ghost k = seen.len() as int;
            proof {
                assert(s.take(k) =~= seen);
            }
            match it.next() {
                Some(c) => {
                    char2byte.push(pos);
                    proof {
                        assert(s[k] == c);
                        assert(s.take(k + 1) =~= seen + seq![c]);
                        lemma_encode_concat(seen, seq![c]);
                        assert(seq![c].drop_first() =~= Seq::<char>::empty());
                        lemma_encode_char(c);
                        assert(byte_offset(s, k + 1) == pos + encode_scalar(c as u32).len());
                        lemma_offset_shift(s, k + 1, s.len() as int);
                        lemma_offset_split(s, s.len() as int);
                        assert(s.take(s.len() as int) =~= s);
                        seen = seen.push(c);
                    }
                    pos = pos + utf8_width(c);
                },
                None => {
                    proof {
                        assert(seen =~= s);
                    }
                    break ;
                },
            }
        }
        char2byte.push(pos);
        assert forall|i: int| 0 <= i <= s.len() implies #[trigger] char2byte@[i] == byte_offset(
            s,
            i,
        ) by {
            if i == s.len() {
                assert(seen.len() == s.len());
            }
        }
        CharString { string, char2byte }
    }

    /// The characters from position `s` up to position `e`.
    pub fn substr(&self, s: usize, e: usize) -> (r: &'a str)
        requires
            s <= e <= self@.len(),
        ensures
            r@ == self@.subrange(s as int, e as int),
    {
        proof {
            use_type_invariant(self);
            lemma_offset_shift(self.string@, s as int, e as int);
        }
        let (_, rest) = cut_at(self.string, Ghost(s as int), self.char2byte[s]);
        let (mid, _) = cut_at(rest, Ghost((e - s) as int), self.char2byte[e] - self.char2byte[s]);
        assert(mid@ =~= self@.subrange(s as int, e as int));
        mid
    }

    /// The characters before position `e`.
    pub fn prefix(&self, e: usize) -> (r: &'a str)
        requires
            e <= self@.len(),
        ensures
            r@ == self@.take(e as int),
    {
        proof {
            use_type_invariant(self);
        }
        cut_at(self.string, Ghost(e as int), self.char2byte[e]).0
    }

    /// The characters from position `s` on.
    pub fn suffix(&self, s: usize) -> (r: &'a str)
        requires
            s <= self@.len(),
        ensures
            r@ == self@.skip(s as int),
    {
        proof {
            use_type_invariant(self);
        }
        cut_at(self.string, Ghost(s as int), self.char2byte[s]).1
    }

    /// The number of characters.
    pub fn len(&self) -> (r: usize)
        ensures
            r == self@.len(),
    {
        proof {
            use_type_invariant(self);
        }
        self.char2byte.len() - 1
    }

    /// The number of bytes of the encoding.
    pub fn num_bytes(&self) -> (r: usize)
        ensures
            r == encode_utf8(self@).len(),
    {
        proof {
            use_type_invariant(self);
            assert(self.string@.take(self.string@.len() as int) =~= self.string@);
        }
        self.char2byte[self.char2byte.len() - 1]
    }

    /// The byte offset at which character position `i` starts.
    pub fn char2byte(&self, i: usize) -> (r: usize)
        requires
            i <= self@.len(),
        ensures
            r == byte_offset(self@, i as int),
    {
        proof {
            use_type_invariant(self);
        }
        self.char2byte[i]
    }
}

/// The uppercase form of one character, as the standard library computes it.
pub uninterp spec fn upper_of(c: char) -> Seq<char>;

/// Relies on `char::to_uppercase`: its result depends on the character alone.
#[verifier::external_body]
fn uppercase_char(c: char) -> (r: String)
    ensures
        r@ == upper_of(c),
{
    c.to_uppercase().collect::<String>()
}

/// `s` with its first character in uppercase.
pub open spec fn title_of(s: Seq<char>) -> Seq<char> {
    if s.len() == 0 {
        Seq::empty()
    } else {
        upper_of(s[0]) + s.skip(1)
    }
}

/// `s` with its first character in uppercase and the rest as it stands.
pub fn titlecase(s: &str) -> (r: String)
    ensures
        r@ == title_of(s@),
{
    let text = CharString::new(s);
    if text.len() == 0 {
        return String::new();
    }
    let first = text.substr(0, 1);
    let v = chars_of(first);
    let mut r = uppercase_char(v[0]);
    r.append(text.suffix(1));
    r
}

} // verus!
