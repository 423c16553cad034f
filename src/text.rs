use vstd::prelude::*;
use vstd::string::{StringExecFns, StringSliceAdditionalSpecFns};

use crate::types::{Address, Frame, Segment};

verus! {

/// The value of a lower-case ASCII hexadecimal digit.
pub open spec fn hex_value(c: u8) -> Option<u8> {
    if 48 <= c <= 57 {
        Some((c - 48) as u8)
    } else if 97 <= c <= 102 {
        Some((c - 87) as u8)
    } else {
        None
    }
}

/// The byte that the two digits at `at` give as a base-16 number.
pub open spec fn pair_value(b: Seq<u8>, at: int) -> Option<u8> {
    match (hex_value(b[at]), hex_value(b[at + 1])) {
        (Some(h), Some(l)) => Some((h * 16 + l) as u8),
        _ => None,
    }
}

/// Whether the bytes from `at` hold `n` readable pairs, each `step` bytes after the last.
pub open spec fn pairs_ok(b: Seq<u8>, at: int, step: int, n: int) -> bool {
    forall|i: int| 0 <= i < n ==> (#[trigger] pair_value(b, at + i * step)) is Some
}

/// The `n` bytes read from pairs starting at `at`, each `step` bytes after the last.
pub open spec fn pairs_value(b: Seq<u8>, at: int, step: int, n: int) -> Seq<u8> {
    Seq::new(n as nat, |i: int| pair_value(b, at + i * step)->Some_0)
}

/// Whether `b` holds address text at `at`: four pairs of digits joined by colons.
pub open spec fn address_ok(b: Seq<u8>, at: int) -> bool {
    &&& pairs_ok(b, at, 3, 4)
    &&& b[at + 2] == 58
    &&& b[at + 5] == 58
    &&& b[at + 8] == 58
}

/// Whether `b` is segment text: two pairs of digits joined by a colon.
pub open spec fn segment_ok(b: Seq<u8>) -> bool {
    &&& b.len() == 5
    &&& pairs_ok(b, 0, 3, 2)
    &&& b[2] == 58
}

/// Whether `b` is frame text: two addresses and sixteen payload pairs, separated by spaces.
pub open spec fn frame_ok(b: Seq<u8>) -> bool {
    &&& b.len() == 56
    &&& address_ok(b, 0)
    &&& b[11] == 32
    &&& address_ok(b, 12)
    &&& b[23] == 32
    &&& pairs_ok(b, 24, 2, 16)
}

/// The lower-case hexadecimal digit for `n < 16`.
pub open spec fn hex_char(n: u8) -> char {
    if n < 10 {
        (n + 48) as char
    } else {
        (n + 87) as char
    }
}

/// Two lower-case hexadecimal digits for a byte.
pub open spec fn byte_text(b: u8) -> Seq<char> {
    seq![hex_char(b / 16), hex_char(b % 16)]
}

/// `aa:bb:cc:dd` for an address.
pub open spec fn address_text(a: Address) -> Seq<char> {
    byte_text(a.data[0]) + seq![':'] + byte_text(a.data[1]) + seq![':'] + byte_text(a.data[2])
        + seq![':'] + byte_text(a.data[3])
}

/// `aa:bb` for a segment.
pub open spec fn segment_text(s: Segment) -> Seq<char> {
    byte_text(s.data[0]) + seq![':'] + byte_text(s.data[1])
}

/// The payload as thirty-two hexadecimal digits.
pub open spec fn payload_text(d: Seq<u8>, n: int) -> Seq<char>
    decreases n,
{
    if n <= 0 {
        Seq::empty()
    } else {
        payload_text(d, n - 1) + byte_text(d[n - 1])
    }
}

/// `src dst payload` for a frame.
pub open spec fn frame_text(f: Frame) -> Seq<char> {
    address_text(f.src) + seq![' '] + address_text(f.dst) + seq![' '] + payload_text(f.data@, 16)
}

/// The bytes of a text whose characters are all ASCII.
pub open spec fn ascii_bytes(t: Seq<char>) -> Seq<u8> {
    Seq::new(t.len(), |i: int| t[i] as u8)
}

proof fn lemma_pair_reads_back(t: Seq<u8>, at: int, b: u8)
    requires
        0 <= at,
        at + 1 < t.len(),
        t[at] == hex_char(b / 16) as u8,
        t[at + 1] == hex_char(b % 16) as u8,
    ensures
        pair_value(t, at) == Some(b),
{
    assert(hex_value(hex_char(b / 16) as u8) == Some(b / 16));
    assert(hex_value(hex_char(b % 16) as u8) == Some(b % 16));
}

/// Reading back the text of an address gives the address: the text is ASCII, eleven bytes
/// long, with four readable pairs that hold the address's bytes.
pub proof fn lemma_address_text_round_trip(a: Address, s: &str)
    requires
        s@ == address_text(a),
    ensures
        vstd::string::is_ascii(s),
        s.spec_bytes() == ascii_bytes(s@),
        s.spec_bytes().len() == 11,
        address_ok(s.spec_bytes(), 0),
        pairs_value(s.spec_bytes(), 0, 3, 4) == a.data@,
{
    let t = s@;
    assert(vstd::string::is_ascii(s)) by {
        assert forall|i: int| 0 <= i < t.len() implies '\0' <= #[trigger] t[i] <= '\u{7f}' by {
            if i % 3 == 2 {
                assert(t[i] == ':');
            }
        }
    }
    vstd::string::is_ascii_spec_bytes(s);
    let b = s.spec_bytes();
    assert forall|i: int| 0 <= i < 4 implies (#[trigger] pair_value(b, 0 + i * 3)) == Some(
        a.data@[i],
    ) by {
        lemma_pair_reads_back(b, i * 3, a.data@[i]);
    }
    assert(pairs_value(b, 0, 3, 4) =~= a.data@);
}

/// Reading back the text of a segment gives the segment.
pub proof fn lemma_segment_text_round_trip(g: Segment, s: &str)
    requires
        s@ == segment_text(g),
    ensures
        vstd::string::is_ascii(s),
        s.spec_bytes() == ascii_bytes(s@),
        segment_ok(s.spec_bytes()),
        pairs_value(s.spec_bytes(), 0, 3, 2) == g.data@,
{
    let t = s@;
    assert(vstd::string::is_ascii(s)) by {
        assert forall|i: int| 0 <= i < t.len() implies '\0' <= #[trigger] t[i] <= '\u{7f}' by {
            if i == 2 {
                assert(t[i] == ':');
            }
        }
    }
    vstd::string::is_ascii_spec_bytes(s);
    let b = s.spec_bytes();
    assert forall|i: int| 0 <= i < 2 implies (#[trigger] pair_value(b, 0 + i * 3)) == Some(
        g.data@[i],
    ) by {
        lemma_pair_reads_back(b, i * 3, g.data@[i]);
    }
    assert(pairs_value(b, 0, 3, 2) =~= g.data@);
}

proof fn lemma_payload_text(d: Seq<u8>, n: int)
    requires
        0 <= n <= d.len(),
    ensures
        payload_text(d, n).len() == 2 * n,
        forall|i: int|
            0 <= i < n ==> payload_text(d, n)[2 * i] == hex_char(d[i] / 16) && payload_text(
                d,
                n,
            )[2 * i + 1] == hex_char(d[i] % 16),
    decreases n,
{
    if n > 0 {
        lemma_payload_text(d, n - 1);
        let p = payload_text(d, n);
        assert forall|i: int| 0 <= i < n implies p[2 * i] == hex_char(d[i] / 16) && p[2 * i + 1]
            == hex_char(d[i] % 16) by {
            if i < n - 1 {
                assert(p[2 * i] == payload_text(d, n - 1)[2 * i]);
                assert(p[2 * i + 1] == payload_text(d, n - 1)[2 * i + 1]);
            }
        }
    }
}

/// Reading back the text of a frame gives the frame: the text is ASCII, fifty-six bytes
/// long, and its two addresses and sixteen payload pairs hold the frame's bytes.
#[verifier::rlimit(60)]
pub proof fn lemma_frame_text_round_trip(f: Frame, s: &str)
    requires
        s@ == frame_text(f),
    ensures
        vstd::string::is_ascii(s),
        s.spec_bytes() == ascii_bytes(s@),
        frame_ok(s.spec_bytes()),
        pairs_value(s.spec_bytes(), 0, 3, 4) == f.src.data@,
        pairs_value(s.spec_bytes(), 12, 3, 4) == f.dst.data@,
        pairs_value(s.spec_bytes(), 24, 2, 16) == f.data@,
{
    let t = s@;
    let pt = payload_text(f.data@, 16);
    lemma_payload_text(f.data@, 16);
    let st = address_text(f.src);
    let dt = address_text(f.dst);
    assert(t == st + seq![' '] + dt + seq![' '] + pt);
    assert forall|i: int| 0 <= i < 16 implies t[24 + 2 * i] == hex_char(f.data@[i] / 16) && t[24
        + 2 * i + 1] == hex_char(f.data@[i] % 16) by {
        assert(t[24 + 2 * i] == pt[2 * i]);
        assert(t[24 + 2 * i + 1] == pt[2 * i + 1]);
    }
    assert(vstd::string::is_ascii(s)) by {
        assert forall|i: int| 0 <= i < t.len() implies '\0' <= #[trigger] t[i] <= '\u{7f}' by {
            if i < 11 {
                assert(t[i] == st[i]);
                if i % 3 == 2 {
                    assert(st[i] == ':');
                }
            } else if 12 <= i < 23 {
                assert(t[i] == dt[i - 12]);
                if (i - 12) % 3 == 2 {
                    assert(dt[i - 12] == ':');
                }
            } else if i >= 24 {
                let j = (i - 24) / 2;
                if (i - 24) % 2 == 0 {
                    assert(i == 24 + 2 * j);
                    assert(t[24 + 2 * j] == hex_char(f.data@[j] / 16));
                } else {
                    assert(i == 24 + 2 * j + 1);
                    assert(t[24 + 2 * j + 1] == hex_char(f.data@[j] % 16));
                }
            }
        }
    }
    vstd::string::is_ascii_spec_bytes(s);
    let b = s.spec_bytes();
    assert forall|i: int| 0 <= i < 4 implies (#[trigger] pair_value(b, 0 + i * 3)) == Some(
        f.src.data@[i],
    ) by {
        assert(t[i * 3] == st[i * 3]);
        assert(t[i * 3 + 1] == st[i * 3 + 1]);
        lemma_pair_reads_back(b, i * 3, f.src.data@[i]);
    }
    assert forall|i: int| 0 <= i < 4 implies (#[trigger] pair_value(b, 12 + i * 3)) == Some(
        f.dst.data@[i],
    ) by {
        assert(t[12 + i * 3] == dt[i * 3]);
        assert(t[12 + i * 3 + 1] == dt[i * 3 + 1]);
        lemma_pair_reads_back(b, 12 + i * 3, f.dst.data@[i]);
    }
    assert forall|i: int| 0 <= i < 16 implies (#[trigger] pair_value(b, 24 + i * 2)) == Some(
        f.data@[i],
    ) by {
        lemma_pair_reads_back(b, 24 + i * 2, f.data@[i]);
    }
    assert(pairs_value(b, 0, 3, 4) =~= f.src.data@);
    assert(pairs_value(b, 12, 3, 4) =~= f.dst.data@);
    assert(pairs_value(b, 24, 2, 16) =~= f.data@);
}

/// Whether every character of `t` is ASCII.
pub open spec fn all_ascii(t: Seq<char>) -> bool {
    forall|i: int| 0 <= i < t.len() ==> '\0' <= #[trigger] t[i] <= '\u{7f}'
}

proof fn lemma_same_ascii_char(c: char, d: char)
    requires
        c <= '\u{7f}',
        d <= '\u{7f}',
        c as u8 == d as u8,
    ensures
        c == d,
{
}

proof fn lemma_digit_char(c: char)
    requires
        c <= '\u{7f}',
        hex_value(c as u8) is Some,
    ensures
        c == hex_char(hex_value(c as u8)->Some_0),
{
    lemma_same_ascii_char(c, hex_char(hex_value(c as u8)->Some_0));
}

proof fn lemma_pair_digits(h: u8, l: u8)
    requires
        h < 16,
        l < 16,
    ensures
        ((h * 16 + l) as u8) / 16 == h,
        ((h * 16 + l) as u8) % 16 == l,
{
    assert(h * 16 + l < 256) by (nonlinear_arith)
        requires
            h < 16,
            l < 16,
    ;
}

/// The two characters at `at` are the text of the byte their pair gives.
proof fn lemma_pair_text(t: Seq<char>, at: int)
    requires
        all_ascii(t),
        0 <= at,
        at + 1 < t.len(),
        pair_value(ascii_bytes(t), at) is Some,
    ensures
        t[at] == byte_text(pair_value(ascii_bytes(t), at)->Some_0)[0],
        t[at + 1] == byte_text(pair_value(ascii_bytes(t), at)->Some_0)[1],
{
    let b = ascii_bytes(t);
    let h = hex_value(b[at])->Some_0;
    let l = hex_value(b[at + 1])->Some_0;
    lemma_pair_digits(h, l);
    lemma_digit_char(t[at]);
    lemma_digit_char(t[at + 1]);
}

/// ASCII text whose bytes hold address text at `at` is the text of the address they give.
proof fn lemma_address_from_text(t: Seq<char>, at: int, a: Address)
    requires
        all_ascii(t),
        0 <= at,
        at + 11 <= t.len(),
        address_ok(ascii_bytes(t), at),
        a.data@ == pairs_value(ascii_bytes(t), at, 3, 4),
    ensures
        t.subrange(at, at + 11) == address_text(a),
{
    let b = ascii_bytes(t);
    assert(pair_value(b, at + 0 * 3) is Some);
    assert(pair_value(b, at + 1 * 3) is Some);
    assert(pair_value(b, at + 2 * 3) is Some);
    assert(pair_value(b, at + 3 * 3) is Some);
    lemma_pair_text(t, at);
    lemma_pair_text(t, at + 3);
    lemma_pair_text(t, at + 6);
    lemma_pair_text(t, at + 9);
    lemma_same_ascii_char(t[at + 2], ':');
    lemma_same_ascii_char(t[at + 5], ':');
    lemma_same_ascii_char(t[at + 8], ':');
    assert(a.data[0] == pair_value(b, at)->Some_0);
    assert(a.data[1] == pair_value(b, at + 3)->Some_0);
    assert(a.data[2] == pair_value(b, at + 6)->Some_0);
    assert(a.data[3] == pair_value(b, at + 9)->Some_0);
    assert(t.subrange(at, at + 11) =~= address_text(a));
}

/// ASCII frame text is the text of the frame its bytes give.
#[verifier::rlimit(60)]
proof fn lemma_frame_from_text(t: Seq<char>, f: Frame)
    requires
        all_ascii(t),
        frame_ok(ascii_bytes(t)),
        f.src.data@ == pairs_value(ascii_bytes(t), 0, 3, 4),
        f.dst.data@ == pairs_value(ascii_bytes(t), 12, 3, 4),
        f.data@ == pairs_value(ascii_bytes(t), 24, 2, 16),
    ensures
        t == frame_text(f),
{
    let b = ascii_bytes(t);
    lemma_address_from_text(t, 0, f.src);
    lemma_address_from_text(t, 12, f.dst);
    lemma_payload_text(f.data@, 16);
    lemma_same_ascii_char(t[11], ' ');
    lemma_same_ascii_char(t[23], ' ');
    let st = address_text(f.src);
    let dt = address_text(f.dst);
    let pt = payload_text(f.data@, 16);
    let ft = frame_text(f);
    assert forall|i: int| 0 <= i < 56 implies t[i] == ft[i] by {
        if i < 11 {
            assert(t[i] == t.subrange(0, 11)[i]);
        } else if 12 <= i < 23 {
            assert(t[i] == t.subrange(12, 23)[i - 12]);
        } else if i >= 24 {
            let j = (i - 24) / 2;
            assert(pair_value(b, 24 + j * 2) is Some);
            lemma_pair_text(t, 24 + 2 * j);
            assert(f.data@[j] == pair_value(b, 24 + j * 2)->Some_0);
            assert(pt[2 * j] == hex_char(f.data@[j] / 16));
            assert(pt[2 * j + 1] == hex_char(f.data@[j] % 16));
            if (i - 24) % 2 == 0 {
                assert(i == 24 + 2 * j);
            } else {
                assert(i == 24 + 2 * j + 1);
            }
        }
    }
    assert(t =~= ft);
}

proof fn lemma_ascii_bytes(s: &str)
    requires
        vstd::string::is_ascii(s),
    ensures
        all_ascii(s@),
        s.spec_bytes() == ascii_bytes(s@),
{
    vstd::string::is_ascii_spec_bytes(s);
    assert(s.spec_bytes() =~= ascii_bytes(s@));
}

proof fn lemma_not_address_text(s: &str)
    requires
        !(vstd::string::is_ascii(s) && s.spec_bytes().len() == 11 && address_ok(s.spec_bytes(), 0)),
    ensures
        !exists|a: Address| s@ == address_text(a),
{
    if exists|a: Address| s@ == address_text(a) {
        let a = choose|a: Address| s@ == address_text(a);
        lemma_address_text_round_trip(a, s);
    }
}

proof fn lemma_not_segment_text(s: &str)
    requires
        !(vstd::string::is_ascii(s) && segment_ok(s.spec_bytes())),
    ensures
        !exists|g: Segment| s@ == segment_text(g),
{
    if exists|g: Segment| s@ == segment_text(g) {
        let g = choose|g: Segment| s@ == segment_text(g);
        lemma_segment_text_round_trip(g, s);
    }
}

proof fn lemma_not_frame_text(s: &str)
    requires
        !(vstd::string::is_ascii(s) && frame_ok(s.spec_bytes())),
    ensures
        !exists|f: Frame| s@ == frame_text(f),
{
    if exists|f: Frame| s@ == frame_text(f) {
        let f = choose|f: Frame| s@ == frame_text(f);
        lemma_frame_text_round_trip(f, s);
    }
}

fn hex_value_exec(c: u8) -> (r: Option<u8>)
    ensures
        r == hex_value(c),
{
    if 48 <= c && c <= 57 {
        Some(c - 48)
    } else if 97 <= c && c <= 102 {
        Some(c - 87)
    } else {
        None
    }
}

fn pair_value_exec(b: &[u8], at: usize) -> (r: Option<u8>)
    requires
        at + 1 < b@.len(),
    ensures
        r == pair_value(b@, at as int),
{
    match (hex_value_exec(b[at]), hex_value_exec(b[at + 1])) {
        (Some(h), Some(l)) => Some(h * 16 + l),
        _ => None,
    }
}

fn read_address(b: &[u8], at: usize) -> (r: Option<Address>)
    requires
        at + 11 <= b@.len(),
        at <= 12,
    ensures
        r is Some <==> pairs_ok(b@, at as int, 3, 4),
        r matches Some(a) ==> a.data@ == pairs_value(b@, at as int, 3, 4),
{
    let mut data = [0u8; 4];
    let mut i: usize = 0;
    while i < 4
        invariant
            i <= 4,
            at + 11 <= b@.len(),
            at <= 12,
            forall|j: int| 0 <= j < i ==> (#[trigger] pair_value(b@, at + j * 3)) is Some,
            forall|j: int| 0 <= j < i ==> data@[j] == pair_value(b@, at + j * 3)->Some_0,
        decreases 4 - i,
    {
        match pair_value_exec(b, at + i * 3) {
            Some(v) => {
                data[i] = v;
            },
            None => {
                assert(!pairs_ok(b@, at as int, 3, 4));
                return None;
            },
        }
        i = i + 1;
    }
    let a = Address { data };
    assert(a.data@ =~= pairs_value(b@, at as int, 3, 4));
    Some(a)
}

/// Lower-case digit `n` as a one-character string.
fn hex_digit_str(n: u8) -> (r: &'static str)
    requires
        n < 16,
    ensures
        r@ == seq![hex_char(n)],
{
    proof {
        reveal_strlit("0");
        reveal_strlit("1");
        reveal_strlit("2");
        reveal_strlit("3");
        reveal_strlit("4");
        reveal_strlit("5");
        reveal_strlit("6");
        reveal_strlit("7");
        reveal_strlit("8");
        reveal_strlit("9");
        reveal_strlit("a");
        reveal_strlit("b");
        reveal_strlit("c");
        reveal_strlit("d");
        reveal_strlit("e");
        reveal_strlit("f");
    }
    match n {
        0 => "0",
        1 => "1",
        2 => "2",
        3 => "3",
        4 => "4",
        5 => "5",
        6 => "6",
        7 => "7",
        8 => "8",
        9 => "9",
        10 => "a",
        11 => "b",
        12 => "c",
        13 => "d",
        14 => "e",
        _ => "f",
    }
}

fn push_byte(s: &mut String, b: u8)
    ensures
        final(s)@ == old(s)@ + byte_text(b),
{
    s.append(hex_digit_str(b / 16));
    s.append(hex_digit_str(b % 16));
    assert(final(s)@ =~= old(s)@ + byte_text(b));
}

fn push_str(s: &mut String, t: &str)
    ensures
        final(s)@ == old(s)@ + t@,
{
    s.append(t);
}

fn push_address(s: &mut String, a: &Address)
    ensures
        final(s)@ == old(s)@ + address_text(*a),
{
    proof {
        reveal_strlit(":");
    }
    push_byte(s, a.data[0]);
    push_str(s, ":");
    push_byte(s, a.data[1]);
    push_str(s, ":");
    push_byte(s, a.data[2]);
    push_str(s, ":");
    push_byte(s, a.data[3]);
    assert(final(s)@ =~= old(s)@ + address_text(*a));
}

impl Address {
    /// Reads the text that `to_text` writes, `aa:bb:cc:dd` in lower-case hexadecimal; any
    /// other text is refused.
    pub fn from_text(value: &str) -> (r: Result<Address, ()>)
        ensures
            r is Ok <==> exists|a: Address| value@ == address_text(a),
            r matches Ok(a) ==> address_text(a) == value@,
    {
        let ascii = value.is_ascii();
        let b = value.as_bytes();
        if !ascii || b.len() != 11 || b[2] != 58 || b[5] != 58 || b[8] != 58 {
            proof {
                lemma_not_address_text(value);
            }
            return Err(());
        }
        proof {
            lemma_ascii_bytes(value);
        }
        match read_address(b, 0) {
            Some(a) => {
                proof {
                    lemma_address_from_text(value@, 0, a);
                    assert(value@.subrange(0, 11) =~= value@);
                }
                Ok(a)
            },
            None => {
                proof {
                    lemma_not_address_text(value);
                }
                Err(())
            },
        }
    }

    /// `aa:bb:cc:dd` in lower-case hexadecimal.
    pub fn to_text(&self) -> (r: String)
        ensures
            r@ == address_text(*self),
    {
        let mut s = String::new();
        push_address(&mut s, self);
        assert(s@ =~= address_text(*self));
        s
    }
}

impl Segment {
    /// Reads the text that `to_text` writes, `aa:bb` in lower-case hexadecimal; any other
    /// text is refused.
    pub fn from_text(value: &str) -> (r: Result<Segment, ()>)
        ensures
            r is Ok <==> exists|g: Segment| value@ == segment_text(g),
            r matches Ok(g) ==> segment_text(g) == value@,
    {
        let ascii = value.is_ascii();
        let b = value.as_bytes();
        if !ascii || b.len() != 5 || b[2] != 58 {
            proof {
                lemma_not_segment_text(value);
            }
            return Err(());
        }
        proof {
            lemma_ascii_bytes(value);
        }
        let hi = pair_value_exec(b, 0);
        let lo = pair_value_exec(b, 3);
        match (hi, lo) {
            (Some(h), Some(l)) => {
                let g = Segment { data: [h, l] };
                proof {
                    let t = value@;
                    lemma_pair_text(t, 0);
                    lemma_pair_text(t, 3);
                    lemma_same_ascii_char(t[2], ':');
                    assert(t =~= segment_text(g));
                }
                Ok(g)
            },
            _ => {
                proof {
                    assert(!pairs_ok(b@, 0, 3, 2)) by {
                        if hi is None {
                            assert(pair_value(b@, 0int + 0int * 3) is None);
                        } else {
                            assert(pair_value(b@, 0int + 1int * 3) is None);
                        }
                    }
                    lemma_not_segment_text(value);
                }
                Err(())
            },
        }
    }

    /// `aa:bb` in lower-case hexadecimal.
    pub fn to_text(&self) -> (r: String)
        ensures
            r@ == segment_text(*self),
    {
        proof {
            reveal_strlit(":");
        }
        let mut s = String::new();
        push_byte(&mut s, self.data[0]);
        push_str(&mut s, ":");
        push_byte(&mut s, self.data[1]);
        assert(s@ =~= segment_text(*self));
        s
    }
}

impl Frame {
    /// Reads the text that `to_text` writes: two addresses and thirty-two lower-case
    /// hexadecimal digits, separated by single spaces; any other text is refused.
    pub fn from_text(value: &str) -> (r: Result<Frame, ()>)
        ensures
            r is Ok <==> exists|f: Frame| value@ == frame_text(f),
            r matches Ok(f) ==> frame_text(f) == value@,
    {
        let ascii = value.is_ascii();
        let b = value.as_bytes();
        if !ascii || b.len() != 56 || b[11] != 32 || b[23] != 32 || b[2] != 58 || b[5] != 58
            || b[8] != 58 || b[14] != 58 || b[17] != 58 || b[20] != 58 {
            proof {
                lemma_not_frame_text(value);
            }
            return Err(());
        }
        proof {
            lemma_ascii_bytes(value);
        }
        let src = match read_address(b, 0) {
            Some(a) => a,
            None => {
                proof {
                    lemma_not_frame_text(value);
                }
                return Err(());
            },
        };
        let dst = match read_address(b, 12) {
            Some(a) => a,
            None => {
                proof {
                    lemma_not_frame_text(value);
                }
                return Err(());
            },
        };
        let mut data = [0u8; 16];
        let mut i: usize = 0;
        while i < 16
            invariant
                i <= 16,
                b@.len() == 56,
                b@ == value.spec_bytes(),
                b@ == ascii_bytes(value@),
                all_ascii(value@),
                vstd::string::is_ascii(value),
                address_ok(b@, 0),
                address_ok(b@, 12),
                b@[11] == 32,
                b@[23] == 32,
                src.data@ == pairs_value(b@, 0, 3, 4),
                dst.data@ == pairs_value(b@, 12, 3, 4),
                forall|j: int| 0 <= j < i ==> (#[trigger] pair_value(b@, 24 + j * 2)) is Some,
                forall|j: int| 0 <= j < i ==> data@[j] == pair_value(b@, 24 + j * 2)->Some_0,
            decreases 16 - i,
        {
            match pair_value_exec(b, 24 + i * 2) {
                Some(v) => {
                    data[i] = v;
                },
                None => {
                    proof {
                        assert(pair_value(b@, 24 + (i as int) * 2) is None);
                        assert(!pairs_ok(b@, 24, 2, 16));
                        lemma_not_frame_text(value);
                    }
                    return Err(());
                },
            }
            i = i + 1;
        }
        let f = Frame { src, dst, data };
        proof {
            assert(f.data@ =~= pairs_value(b@, 24, 2, 16));
            lemma_frame_from_text(value@, f);
        }
        Ok(f)
    }

    /// `src dst payload`, the payload as thirty-two lower-case hexadecimal digits.
    pub fn to_text(&self) -> (r: String)
        ensures
            r@ == frame_text(*self),
    {
        proof {
            reveal_strlit(" ");
        }
        let mut s = String::new();
        push_address(&mut s, &self.src);
        push_str(&mut s, " ");
        push_address(&mut s, &self.dst);
        push_str(&mut s, " ");
        let ghost head = s@;
        let mut i: usize = 0;
        while i < 16
            invariant
                i <= 16,
                s@ == head + payload_text(self.data@, i as int),
            decreases 16 - i,
        {
            push_byte(&mut s, self.data[i]);
            assert(s@ =~= head + payload_text(self.data@, i + 1));
            i = i + 1;
        }
        assert(s@ =~= frame_text(*self));
        s
    }
}

} // verus!
