//! Names as numbers: a short name over a small alphabet, read as a numeral,
//! fits in a machine word. Two alphabets are in use: the 36 symbols `0-9a-z`
//! for single words, and 41 symbols for channel ids, which are cut into
//! chunks of 12 symbols, one word each.
use crate::text::{lemma_char_code, lemma_same_bytes};
use crate::wire::string_from_utf8;
use vstd::prelude::*;
use vstd::slice::slice_subrange;
use vstd::utf8::{encode_utf8, encode_utf8_valid_utf8, is_ascii_chars, is_ascii_chars_encode_utf8};

verus! {

/// The symbols of a numeral.
#[derive(Copy, Clone, PartialEq, Eq, Debug, Structural)]
pub enum Alphabet {
    /// `0123456789abcdefghijklmnopqrstuvwxyz`, in this order.
    Base36,
    /// A carriage return, then `a-z`, `0-9`, and `._:/`, in this order.
    Base41,
}

/// How many symbols of a channel id make one word.
pub const CHUNK: usize = 12;

impl Alphabet {
    /// The number of symbols.
    pub open spec fn base(self) -> nat {
        match self {
            Alphabet::Base36 => 36,
            Alphabet::Base41 => 41,
        }
    }

    /// The value of a symbol, or `None` for a character that is no symbol.
    pub open spec fn spec_digit(self, c: char) -> Option<nat> {
        let x = c as u32;
        match self {
            Alphabet::Base36 => if 48 <= x <= 57 {
                Some((x - 48) as nat)
            } else if 97 <= x <= 122 {
                Some((x - 97 + 10) as nat)
            } else {
                None
            },
            Alphabet::Base41 => if x == 13 {
                Some(0)
            } else if 97 <= x <= 122 {
                Some((x - 97 + 1) as nat)
            } else if 48 <= x <= 57 {
                Some((x - 48 + 27) as nat)
            } else if x == 46 {
                Some(37)
            } else if x == 95 {
                Some(38)
            } else if x == 58 {
                Some(39)
            } else if x == 47 {
                Some(40)
            } else {
                None
            },
        }
    }

    /// The code of the symbol with a given value.
    pub open spec fn spec_symbol(self, d: nat) -> u8 {
        match self {
            Alphabet::Base36 => if d < 10 {
                (48 + d) as u8
            } else {
                (97 + d - 10) as u8
            },
            Alphabet::Base41 => if d == 0 {
                13
            } else if d <= 26 {
                (97 + d - 1) as u8
            } else if d <= 36 {
                (48 + d - 27) as u8
            } else if d == 37 {
                46
            } else if d == 38 {
                95
            } else if d == 39 {
                58
            } else {
                47
            },
        }
    }

    /// The number of symbols.
    pub fn radix(self) -> (b: u64)
        ensures
            b == self.base(),
    {
        match self {
            Alphabet::Base36 => 36,
            Alphabet::Base41 => 41,
        }
    }

    /// The value of the symbol with code `b`, if it is one.
    pub fn digit(self, b: u8) -> (r: Option<u64>)
        ensures
            match r {
                Some(d) => self.spec_digit(b as char) == Some(d as nat) && d < self.base(),
                None => self.spec_digit(b as char).is_none(),
            },
    {
        match self {
            Alphabet::Base36 => if 48 <= b && b <= 57 {
                Some((b - 48) as u64)
            } else if 97 <= b && b <= 122 {
                Some((b - 97 + 10) as u64)
            } else {
                None
            },
            Alphabet::Base41 => if b == 13 {
                Some(0)
            } else if 97 <= b && b <= 122 {
                Some((b - 97 + 1) as u64)
            } else if 48 <= b && b <= 57 {
                Some((b - 48 + 27) as u64)
            } else if b == 46 {
                Some(37)
            } else if b == 95 {
                Some(38)
            } else if b == 58 {
                Some(39)
            } else if b == 47 {
                Some(40)
            } else {
                None
            },
        }
    }

    /// The code of the symbol with value `d`.
    pub fn symbol(self, d: u64) -> (b: u8)
        requires
            d < self.base(),
        ensures
            b == self.spec_symbol(d as nat),
            b < 128,
            self.spec_digit(b as char) == Some(d as nat),
    {
        match self {
            Alphabet::Base36 => if d < 10 {
                48 + d as u8
            } else {
                97 + (d as u8 - 10)
            },
            Alphabet::Base41 => if d == 0 {
                13
            } else if d <= 26 {
                97 + (d as u8 - 1)
            } else if d <= 36 {
                48 + (d as u8 - 27)
            } else if d == 37 {
                46
            } else if d == 38 {
                95
            } else if d == 39 {
                58
            } else {
                47
            },
        }
    }
}

/// The number that a text denotes, most significant symbol first. `None` if
/// a character of the text is no symbol of the alphabet. The empty text
/// denotes zero.
pub open spec fn number(a: Alphabet, text: Seq<char>) -> Option<nat>
    decreases text.len(),
{
    if text.len() == 0 {
        Some(0)
    } else {
        match (number(a, text.drop_last()), a.spec_digit(text.last())) {
            (Some(v), Some(d)) => Some(v * a.base() + d),
            _ => None,
        }
    }
}

/// The numeral of a number, most significant symbol first, without leading
/// zeros. The numeral of zero is empty.
pub open spec fn numeral(a: Alphabet, n: nat) -> Seq<char>
    decreases n,
{
    if n == 0 {
        Seq::empty()
    } else {
        numeral(a, n / a.base()).push(a.spec_symbol(n % a.base()) as char)
    }
}

/// Every value below the base has a symbol, and the symbol has that value.
pub proof fn lemma_symbol_digit(a: Alphabet, d: nat)
    requires
        d < a.base(),
    ensures
        a.spec_digit(a.spec_symbol(d) as char) == Some(d),
        a.spec_symbol(d) < 128,
{
}

/// Every symbol is the symbol of its value.
pub proof fn lemma_digit_symbol(a: Alphabet, c: char)
    requires
        a.spec_digit(c).is_some(),
    ensures
        a.spec_digit(c).unwrap() < a.base(),
        a.spec_symbol(a.spec_digit(c).unwrap()) as char == c,
{
}

/// Reading the numeral of a number gives the number back.
pub proof fn lemma_number_of_numeral(a: Alphabet, n: nat)
    ensures
        number(a, numeral(a, n)) == Some(n),
    decreases n,
{
    if n > 0 {
        let b = a.base();
        let q = n / b;
        let d = n % b;
        assert(q < n && d < b && q * b + d == n) by (nonlinear_arith)
            requires
                n > 0,
                b >= 36,
                q == n / b,
                d == n % b,
        ;
        lemma_number_of_numeral(a, q);
        lemma_symbol_digit(a, d);
        let t = numeral(a, n);
        assert(t.drop_last() =~= numeral(a, q));
        assert(t.last() == a.spec_symbol(d) as char);
    }
}

/// Writing the number of a text gives the text back, if the text does not
/// begin with the symbol of zero.
pub proof fn lemma_numeral_of_number(a: Alphabet, text: Seq<char>)
    requires
        number(a, text).is_some(),
        text.len() > 0 ==> a.spec_digit(text[0]) != Some(0nat),
    ensures
        numeral(a, number(a, text).unwrap()) == text,
        text.len() > 0 ==> number(a, text).unwrap() > 0,
    decreases text.len(),
{
    if text.len() == 0 {
        assert(text =~= Seq::empty());
    } else {
        let b = a.base();
        let head = text.drop_last();
        let v = number(a, head).unwrap();
        let d = a.spec_digit(text.last()).unwrap();
        let n = v * b + d;
        lemma_digit_symbol(a, text.last());
        if head.len() > 0 {
            assert(head[0] == text[0]);
        }
        lemma_numeral_of_number(a, head);
        assert(n / b == v && n % b == d) by (nonlinear_arith)
            requires
                n == v * b + d,
                d < b,
                b >= 36,
        ;
        if head.len() == 0 {
            assert(text.last() == text[0]);
            assert(d != 0);
        } else {
            assert(n > 0) by (nonlinear_arith)
                requires
                    n == v * b + d,
                    v > 0,
                    b >= 36,
            ;
        }
        assert(numeral(a, n) =~= text);
    }
}

/// The characters with the given codes.
pub open spec fn ascii_text(bytes: Seq<u8>) -> Seq<char> {
    Seq::new(bytes.len(), |i: int| bytes[i] as char)
}

/// A text of symbols is made of one byte for each character.
proof fn lemma_ascii_bytes(bytes: Seq<u8>)
    requires
        forall|i: int| 0 <= i < bytes.len() ==> bytes[i] < 128,
    ensures
        encode_utf8(ascii_text(bytes)) == bytes,
{
    let cs = ascii_text(bytes);
    assert(is_ascii_chars(cs));
    is_ascii_chars_encode_utf8(cs);
    assert(encode_utf8(cs) =~= bytes);
}

/// The text with the given codes, each below 128.
fn ascii_string(bytes: Vec<u8>) -> (s: String)
    requires
        forall|i: int| 0 <= i < bytes@.len() ==> bytes@[i] < 128,
    ensures
        s@ == ascii_text(bytes@),
{
    proof {
        lemma_ascii_bytes(bytes@);
        encode_utf8_valid_utf8(ascii_text(bytes@));
    }
    let ghost codes = bytes@;
    match string_from_utf8(bytes) {
        Some(s) => {
            proof {
                lemma_same_bytes(s@, ascii_text(codes));
            }
            s
        },
        None => String::new(),
    }
}

/// Reads the symbols with the given codes as a numeral. `None` if a code is
/// no symbol, or if the number does not fit in 64 bits.
pub fn decode_number(a: Alphabet, codes: &[u8]) -> (r: Option<u64>)
    ensures
        match r {
            Some(v) => number(a, ascii_text(codes@)) == Some(v as nat),
            None => match number(a, ascii_text(codes@)) {
                Some(n) => n > u64::MAX,
                None => true,
            },
        },
{
    let ghost text = ascii_text(codes@);
    let base = a.radix();
    let mut v: u64 = 0;
    let mut i: usize = 0;
    assert(text.take(0) =~= Seq::<char>::empty());
    while i < codes.len()
        invariant
            i <= codes@.len(),
            text == ascii_text(codes@),
            base == a.base(),
            number(a, text.take(i as int)) == Some(v as nat),
        decreases codes.len() - i,
    {
        proof {
            assert(text.take(i + 1).drop_last() =~= text.take(i as int));
            assert(text.take(i + 1).last() == codes@[i as int] as char);
        }
        let d = match a.digit(codes[i]) {
            Some(d) => d,
            None => {
                proof {
                    lemma_number_prefix(a, text, i + 1);
                }
                return None;
            },
        };
        let next = match v.checked_mul(base) {
            Some(m) => m.checked_add(d),
            None => None,
        };
        v = match next {
            Some(n) => n,
            None => {
                proof {
                    lemma_number_prefix(a, text, i + 1);
                }
                return None;
            },
        };
        i += 1;
    }
    assert(text.take(i as int) =~= text);
    Some(v)
}

/// A text denotes a number only if each of its beginnings does, and the
/// number of a beginning is no greater.
pub proof fn lemma_number_prefix(a: Alphabet, text: Seq<char>, k: int)
    requires
        0 <= k <= text.len(),
    ensures
        number(a, text.take(k)).is_none() ==> number(a, text).is_none(),
        number(a, text) matches Some(n) ==> number(a, text.take(k)).unwrap() <= n,
    decreases text.len() - k,
{
    if k == text.len() {
        assert(text.take(k) =~= text);
    } else {
        lemma_number_prefix(a, text.drop_last(), k);
        assert(text.drop_last().take(k) =~= text.take(k));
        if let Some(n) = number(a, text) {
            let v = number(a, text.drop_last()).unwrap();
            let d = a.spec_digit(text.last()).unwrap();
            let b = a.base();
            assert(v <= v * b + d) by (nonlinear_arith)
                requires
                    b >= 36,
            ;
        }
    }
}

/// Writes a number as a numeral: the codes of its symbols, most significant
/// first. Zero gives no symbol.
pub fn encode_number(a: Alphabet, v: u64) -> (r: Vec<u8>)
    ensures
        ascii_text(r@) == numeral(a, v as nat),
        forall|i: int| 0 <= i < r@.len() ==> r@[i] < 128,
    decreases v,
{
    if v == 0 {
        let r: Vec<u8> = Vec::new();
        assert(ascii_text(r@) =~= numeral(a, 0));
        r
    } else {
        let base = a.radix();
        let mut r = encode_number(a, v / base);
        let ghost before = r@;
        let b = a.symbol(v % base);
        r.push(b);
        assert(ascii_text(r@) =~= ascii_text(before).push(b as char));
        r
    }
}

/// The code of each character of a text of symbols.
fn codes_of(name: &str) -> (r: Option<&[u8]>)
    ensures
        match r {
            Some(b) => is_ascii_chars(name@) && ascii_text(b@) == name@,
            None => !is_ascii_chars(name@),
        },
{
    if !name.is_ascii() {
        return None;
    }
    let b = name.as_bytes();
    proof {
        is_ascii_chars_encode_utf8(name@);
        assert(ascii_text(b@) =~= name@);
    }
    Some(b)
}

/// A character that is not ASCII is no symbol, so a text with one denotes no
/// number.
proof fn lemma_not_ascii(a: Alphabet, text: Seq<char>)
    requires
        !is_ascii_chars(text),
    ensures
        number(a, text).is_none(),
    decreases text.len(),
{
    if text.len() > 0 {
        let c = text.last();
        lemma_char_code(c);
        if '\0' <= c <= '\u{7f}' {
            let head = text.drop_last();
            assert(!is_ascii_chars(head)) by {
                if is_ascii_chars(head) {
                    assert forall|i: int| 0 <= i < text.len() implies '\0' <= #[trigger] text[i]
                        <= '\u{7f}' by {
                        if i < head.len() {
                            assert(head[i] == text[i]);
                        }
                    }
                }
            }
            lemma_not_ascii(a, head);
        }
    }
}

/// Reads a name over `0-9a-z` as a base-36 numeral. `None` if a character of
/// the name is no such symbol, or if the number does not fit in 64 bits.
pub fn try_str_radix(name: &str) -> (r: Option<u64>)
    ensures
        match r {
            Some(v) => number(Alphabet::Base36, name@) == Some(v as nat),
            None => match number(Alphabet::Base36, name@) {
                Some(n) => n > u64::MAX,
                None => true,
            },
        },
{
    match codes_of(name) {
        Some(codes) => decode_number(Alphabet::Base36, codes),
        None => {
            proof {
                lemma_not_ascii(Alphabet::Base36, name@);
            }
            None
        },
    }
}

/// Reads a name over `0-9a-z` as a base-36 numeral.
pub fn str_radix(name: &str) -> (r: usize)
    requires
        is_word(Alphabet::Base36, name@),
    ensures
        number(Alphabet::Base36, name@) == Some(r as nat),
{
    match try_str_radix(name) {
        Some(v) => v as usize,
        None => 0,
    }
}

/// Writes a number as a base-36 numeral over `0-9a-z`. Zero gives the empty
/// name.
pub fn radix_str(value: u64) -> (r: String)
    ensures
        r@ == numeral(Alphabet::Base36, value as nat),
{
    ascii_string(encode_number(Alphabet::Base36, value))
}

/// A name that was written from a number reads as that number; a name that
/// reads as a number and does not begin with `0` is written back from it.
pub proof fn lemma_radix_round_trip(value: nat, name: Seq<char>)
    ensures
        number(Alphabet::Base36, numeral(Alphabet::Base36, value)) == Some(value),
        number(Alphabet::Base36, name).is_some() && (name.len() > 0 ==> name[0] != '0') ==> numeral(
            Alphabet::Base36,
            number(Alphabet::Base36, name).unwrap(),
        ) == name,
{
    lemma_number_of_numeral(Alphabet::Base36, value);
    if number(Alphabet::Base36, name).is_some() && (name.len() > 0 ==> name[0] != '0') {
        if name.len() > 0 {
            lemma_first_symbol(Alphabet::Base36, name);
            lemma_char_code(name[0]);
        }
        lemma_numeral_of_number(Alphabet::Base36, name);
    }
}

/// The first character of a text that denotes a number is a symbol.
proof fn lemma_first_symbol(a: Alphabet, text: Seq<char>)
    requires
        text.len() > 0,
        number(a, text).is_some(),
    ensures
        a.spec_digit(text[0]).is_some(),
    decreases text.len(),
{
    if text.len() > 1 {
        assert(text.drop_last()[0] == text[0]);
        lemma_first_symbol(a, text.drop_last());
    }
}

// ---------------------------------------------------------------------------
// Channel ids: a name cut into chunks, one word for each
// ---------------------------------------------------------------------------
/// How many chunks a text of `len` characters has.
pub open spec fn chunk_count(len: nat) -> nat {
    ((len + CHUNK - 1) / (CHUNK as int)) as nat
}

/// The `k`-th chunk of a text: `CHUNK` characters, or what is left of the
/// text if that is less.
pub open spec fn chunk(text: Seq<char>, k: int) -> Seq<char> {
    text.subrange(k * CHUNK, if (k + 1) * CHUNK <= text.len() {
        (k + 1) * CHUNK
    } else {
        text.len() as int
    })
}

/// Whether `words` are the numbers of the chunks of `text`, read over the
/// 41 symbols.
pub open spec fn words_of(text: Seq<char>, words: Seq<usize>) -> bool {
    &&& words.len() == chunk_count(text.len())
    &&& forall|k: int|
        0 <= k < words.len() ==> number(Alphabet::Base41, chunk(text, k)) == Some(
            #[trigger] words[k] as nat,
        )
}

/// Whether a text denotes a number that fits in a word.
pub open spec fn is_word(a: Alphabet, text: Seq<char>) -> bool {
    match number(a, text) {
        Some(n) => n <= usize::MAX,
        None => false,
    }
}

/// Whether a text can be cut into words: each chunk denotes a number that
/// fits in a word.
pub open spec fn has_words(text: Seq<char>) -> bool {
    forall|k: int|
        0 <= k < chunk_count(text.len()) ==> is_word(Alphabet::Base41, #[trigger] chunk(text, k))
}

/// The text of a list of words: the numeral of each, one after the other.
pub open spec fn words_text(words: Seq<usize>) -> Seq<char>
    decreases words.len(),
{
    if words.len() == 0 {
        Seq::empty()
    } else {
        words_text(words.drop_last()) + numeral(Alphabet::Base41, words.last() as nat)
    }
}

/// Cuts a name into chunks of `CHUNK` symbols and reads each as a numeral
/// over the 41 symbols. `None` if a chunk holds a character that is no
/// symbol, or denotes a number that does not fit in a word.
pub fn try_from_str_slice(input: &str) -> (r: Option<Vec<usize>>)
    ensures
        match r {
            Some(words) => words_of(input@, words@),
            None => !has_words(input@),
        },
{
    let codes = match codes_of(input) {
        Some(c) => c,
        None => {
            proof {
                lemma_chunk_not_ascii(input@);
            }
            return None;
        },
    };
    let ghost text = input@;
    let mut words: Vec<usize> = Vec::new();
    let mut at: usize = 0;
    while at < codes.len()
        invariant
            at <= codes@.len(),
            text == ascii_text(codes@),
            text == input@,
            at == words@.len() * CHUNK || at == codes@.len(),
            at == codes@.len() ==> words@.len() == chunk_count(text.len()),
            at < codes@.len() ==> words@.len() < chunk_count(text.len()),
            forall|k: int|
                0 <= k < words@.len() ==> number(Alphabet::Base41, chunk(text, k)) == Some(
                    #[trigger] words@[k] as nat,
                ),
        decreases codes.len() - at,
    {
        let end: usize = if codes.len() - at > CHUNK {
            at + CHUNK
        } else {
            codes.len()
        };
        let part = slice_subrange(codes, at, end);
        let ghost k = words@.len() as int;
        proof {
            assert(ascii_text(part@) =~= chunk(text, k));
        }
        let word = match decode_number(Alphabet::Base41, part) {
            Some(v) => v,
            None => {
                assert(!is_word(Alphabet::Base41, chunk(text, k)));
                return None;
            },
        };
        if word > usize::MAX as u64 {
            assert(!is_word(Alphabet::Base41, chunk(text, k)));
            return None;
        }
        words.push(word as usize);
        at = end;
    }
    Some(words)
}

/// A text with a character that is not ASCII cannot be cut into words.
proof fn lemma_chunk_not_ascii(text: Seq<char>)
    requires
        !is_ascii_chars(text),
    ensures
        !has_words(text),
{
    let i = choose|i: int| 0 <= i < text.len() && !('\0' <= #[trigger] text[i] <= '\u{7f}');
    let k = i / (CHUNK as int);
    let c = chunk(text, k);
    assert(0 <= k < chunk_count(text.len()));
    assert(c[i - k * CHUNK] == text[i]);
    assert(!is_ascii_chars(c));
    lemma_not_ascii(Alphabet::Base41, c);
}

/// Cuts a name into chunks of `CHUNK` symbols and reads each as a numeral
/// over the 41 symbols.
pub fn from_str_slice(input: &str) -> (words: Vec<usize>)
    requires
        has_words(input@),
    ensures
        words_of(input@, words@),
{
    match try_from_str_slice(input) {
        Some(words) => words,
        None => Vec::new(),
    }
}

/// Writes each word as a numeral over the 41 symbols, one after the other.
pub fn from_u64_slice(input: &[usize]) -> (r: String)
    ensures
        r@ == words_text(input@),
{
    let mut codes: Vec<u8> = Vec::new();
    let mut i: usize = 0;
    assert(input@.take(0) =~= Seq::<usize>::empty());
    assert(ascii_text(codes@) =~= Seq::<char>::empty());
    while i < input.len()
        invariant
            i <= input@.len(),
            ascii_text(codes@) == words_text(input@.take(i as int)),
            forall|k: int| 0 <= k < codes@.len() ==> codes@[k] < 128,
        decreases input.len() - i,
    {
        let ghost before = codes@;
        let mut word = encode_number(Alphabet::Base41, input[i] as u64);
        let ghost added = word@;
        codes.append(&mut word);
        proof {
            assert(input@.take(i + 1).drop_last() =~= input@.take(i as int));
            assert(input@.take(i + 1).last() == input@[i as int]);
            assert(ascii_text(codes@) =~= ascii_text(before) + ascii_text(added));
        }
        i += 1;
    }
    assert(input@.take(i as int) =~= input@);
    ascii_string(codes)
}

/// The first `n` chunks of `text`, one after the other.
pub open spec fn chunks_text(text: Seq<char>, n: nat) -> Seq<char>
    decreases n,
{
    if n == 0 {
        Seq::empty()
    } else {
        chunks_text(text, (n - 1) as nat) + chunk(text, n - 1)
    }
}

/// The chunks of a text, put together, are the text.
pub proof fn lemma_chunks_text(text: Seq<char>, n: nat)
    requires
        n <= chunk_count(text.len()),
    ensures
        chunks_text(text, n) == text.take(
            if n * CHUNK <= text.len() {
                (n * CHUNK) as int
            } else {
                text.len() as int
            },
        ),
    decreases n,
{
    if n == 0 {
        assert(text.take(0) =~= Seq::<char>::empty());
    } else {
        lemma_chunks_text(text, (n - 1) as nat);
        let end = if n * CHUNK <= text.len() {
            (n * CHUNK) as int
        } else {
            text.len() as int
        };
        assert(chunks_text(text, n) =~= text.take(end));
    }
}

/// A name that was cut into words is written back from them, if no chunk of
/// it begins with the symbol of zero, the carriage return.
pub proof fn lemma_channel_id_round_trip(text: Seq<char>, words: Seq<usize>)
    requires
        words_of(text, words),
        forall|k: int| 0 <= k < words.len() ==> chunk(text, k)[0] != '\r',
    ensures
        words_text(words) == text,
{
    lemma_words_text(text, words, words.len());
    lemma_chunks_text(text, words.len());
    assert(words.take(words.len() as int) =~= words);
    assert(text.take(text.len() as int) =~= text);
}

/// The numerals of the first `n` words, one after the other, are the first
/// `n` chunks of the text.
proof fn lemma_words_text(text: Seq<char>, words: Seq<usize>, n: nat)
    requires
        words_of(text, words),
        n <= words.len(),
        forall|k: int| 0 <= k < words.len() ==> chunk(text, k)[0] != '\r',
    ensures
        words_text(words.take(n as int)) == chunks_text(text, n),
    decreases n,
{
    if n == 0 {
        assert(words.take(0) =~= Seq::<usize>::empty());
    } else {
        lemma_words_text(text, words, (n - 1) as nat);
        let k = n - 1;
        let c = chunk(text, k);
        assert(words.take(n as int).drop_last() =~= words.take(k));
        assert(words.take(n as int).last() == words[k]);
        assert(number(Alphabet::Base41, c) == Some(words[k] as nat));
        assert(c.len() > 0);
        lemma_first_symbol(Alphabet::Base41, c);
        lemma_char_code(c[0]);
        assert('\r' as u32 == 13);
        lemma_numeral_of_number(Alphabet::Base41, c);
    }
}

} // verus!
