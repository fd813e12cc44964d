use net_lib::radix::{
    decode_number, encode_number, from_str_slice, from_u64_slice, radix_str, str_radix,
    try_from_str_slice, try_str_radix, Alphabet,
};

#[test]
fn radix() {
    let s = "abmac.local:0";
    let num = from_str_slice(s);
    let s2 = from_u64_slice(&num);
    assert_eq!(s2, "abmac.local:0");
}

#[test]
fn messages_radix() {
    let s = "abmac.local:0";
    let num = from_str_slice(s);
    assert_eq!(num.len(), 2);
    let s2 = from_u64_slice(&num);
    assert_eq!(s2, "abmac.local:0");
}

#[test]
fn discovery_msg_radix() {
    let s = "mychannel";
    let num = str_radix(&s);
    let s2 = radix_str(num as u64);
    assert_eq!(s, &s2);
}

#[test]
fn str_radix_exact_values() {
    assert_eq!(str_radix(""), 0);
    assert_eq!(str_radix("0"), 0);
    assert_eq!(str_radix("z"), 35);
    assert_eq!(str_radix("10"), 36);
    assert_eq!(str_radix("a1"), 10 * 36 + 1);
    assert_eq!(str_radix("zz"), 35 * 36 + 35);
}

#[test]
fn radix_str_exact_values() {
    assert_eq!(radix_str(0), "");
    assert_eq!(radix_str(35), "z");
    assert_eq!(radix_str(36), "10");
    assert_eq!(radix_str(1295), "zz");
    assert_eq!(radix_str(u64::MAX), "3w5e11264sgsf");
}

#[test]
fn try_str_radix_rejects_other_characters() {
    assert_eq!(try_str_radix("abc"), Some(10 * 36 * 36 + 11 * 36 + 12));
    assert_eq!(try_str_radix("ABC"), None);
    assert_eq!(try_str_radix("a c"), None);
    assert_eq!(try_str_radix("caf\u{e9}"), None);
}

#[test]
fn try_str_radix_rejects_overflow() {
    assert_eq!(try_str_radix("3w5e11264sgsf"), Some(u64::MAX));
    assert_eq!(try_str_radix("3w5e11264sgsg"), None);
    assert_eq!(try_str_radix("zzzzzzzzzzzzzz"), None);
}

#[test]
fn leading_zero_is_not_written_back() {
    let n = str_radix("0abc");
    assert_eq!(radix_str(n as u64), "abc");
}

#[test]
fn base41_symbols() {
    assert_eq!(Alphabet::Base41.digit(b'\r'), Some(0));
    assert_eq!(Alphabet::Base41.digit(b'a'), Some(1));
    assert_eq!(Alphabet::Base41.digit(b'z'), Some(26));
    assert_eq!(Alphabet::Base41.digit(b'0'), Some(27));
    assert_eq!(Alphabet::Base41.digit(b'9'), Some(36));
    assert_eq!(Alphabet::Base41.digit(b'.'), Some(37));
    assert_eq!(Alphabet::Base41.digit(b'_'), Some(38));
    assert_eq!(Alphabet::Base41.digit(b':'), Some(39));
    assert_eq!(Alphabet::Base41.digit(b'/'), Some(40));
    assert_eq!(Alphabet::Base41.digit(b'A'), None);
    for d in 0..41u64 {
        assert_eq!(Alphabet::Base41.digit(Alphabet::Base41.symbol(d)), Some(d));
    }
    for d in 0..36u64 {
        assert_eq!(Alphabet::Base36.digit(Alphabet::Base36.symbol(d)), Some(d));
    }
}

#[test]
fn encode_and_decode_number() {
    assert_eq!(encode_number(Alphabet::Base36, 36), b"10".to_vec());
    assert_eq!(encode_number(Alphabet::Base41, 41), b"a\r".to_vec());
    assert_eq!(decode_number(Alphabet::Base41, b"a\r"), Some(41));
    assert_eq!(decode_number(Alphabet::Base41, b""), Some(0));
    assert_eq!(decode_number(Alphabet::Base41, b"?"), None);
}

#[test]
fn from_str_slice_cuts_chunks_of_twelve() {
    assert_eq!(from_str_slice(""), Vec::<usize>::new());
    assert_eq!(from_str_slice("a"), vec![1]);
    assert_eq!(from_str_slice("ab"), vec![41 + 2]);
    let words = from_str_slice("aaaaaaaaaaaab");
    assert_eq!(words.len(), 2);
    assert_eq!(words[1], 2);
    assert_eq!(from_u64_slice(&[1, 43]), "aab");
}

#[test]
fn try_from_str_slice_rejects_what_is_no_symbol_or_too_large() {
    assert_eq!(try_from_str_slice("tcp://a.b:1"), Some(from_str_slice("tcp://a.b:1")));
    assert_eq!(try_from_str_slice("UPPER"), None);
    assert_eq!(try_from_str_slice("////////////"), None);
}
