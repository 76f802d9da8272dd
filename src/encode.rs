//! Encoding of a tracker query for use as a query-string value.

use vstd::prelude::*;

verus! {

/// The C0 control percent-encode set: U+0000 to U+001F and DEL.
pub open spec fn in_control_set(c: char) -> bool {
    let v = c as u32;
    v < 0x20 || v == 0x7f
}

pub open spec fn hex_upper(d: int) -> char {
    seq!['0', '1', '2', '3', '4', '5', '6', '7', '8', '9', 'A', 'B', 'C', 'D', 'E', 'F'][d]
}

/// `%` followed by the two upper-case hex digits of `b`.
pub open spec fn percent_byte(b: u8) -> Seq<char> {
    seq!['%', hex_upper(b as int / 16), hex_upper(b as int % 16)]
}

/// The UTF-8 encoding of a character.
pub open spec fn utf8_of(c: char) -> Seq<u8> {
    let v = (c as u32) as int;
    if v < 0x80 {
        seq![v as u8]
    } else if v < 0x800 {
        seq![(0xC0 + v / 64) as u8, (0x80 + v % 64) as u8]
    } else if v < 0x10000 {
        seq![(0xE0 + v / 4096) as u8, (0x80 + (v / 64) % 64) as u8, (0x80 + v % 64) as u8]
    } else {
        seq![
            (0xF0 + v / 262144) as u8,
            (0x80 + (v / 4096) % 64) as u8,
            (0x80 + (v / 64) % 64) as u8,
            (0x80 + v % 64) as u8,
        ]
    }
}

pub open spec fn percent_bytes(bs: Seq<u8>) -> Seq<char>
    decreases bs.len(),
{
    if bs.len() == 0 {
        Seq::empty()
    } else {
        percent_bytes(bs.drop_last()) + percent_byte(bs.last())
    }
}

/// A character that stands for itself in an encoded query.
pub open spec fn kept_as_is(c: char) -> bool {
    (c as u32) < 0x80 && !in_control_set(c)
}

pub open spec fn control_char(c: char) -> Seq<char> {
    if kept_as_is(c) {
        seq![c]
    } else {
        percent_bytes(utf8_of(c))
    }
}

/// `s` with every character outside ASCII or in the control set replaced by
/// the percent-encoding of its UTF-8 bytes.
pub open spec fn controls_encoded(s: Seq<char>) -> Seq<char>
    decreases s.len(),
{
    if s.len() == 0 {
        Seq::empty()
    } else {
        controls_encoded(s.drop_last()) + control_char(s.last())
    }
}

/// The rest of the fragment set (space, `"`, `<`, `>`, backtick), and `=`,
/// each of which an encoded query writes as its percent-encoding.
pub open spec fn escaped_char(c: char) -> Seq<char> {
    if c == ' ' {
        "%20"@
    } else if c == '"' {
        "%22"@
    } else if c == '<' {
        "%3C"@
    } else if c == '>' {
        "%3E"@
    } else if c == '`' {
        "%60"@
    } else if c == '=' {
        "%3D"@
    } else {
        seq![c]
    }
}

/// `s` with each character that `escaped_char` names percent-encoded.
pub open spec fn reserved_escaped(s: Seq<char>) -> Seq<char>
    decreases s.len(),
{
    if s.len() == 0 {
        Seq::empty()
    } else {
        reserved_escaped(s.drop_last()) + escaped_char(s.last())
    }
}

/// The encoded form of a raw query: controls and non-ASCII characters
/// percent-encoded byte by byte, then the rest of the fragment set, then
/// every `=` as `%3D`.
pub open spec fn encoded_query(s: Seq<char>) -> Seq<char> {
    reserved_escaped(controls_encoded(s))
}

/// A character that an encoded query may hold: printable ASCII other than
/// space, `"`, `<`, `>`, backtick and `=`.
pub open spec fn query_safe(c: char) -> bool {
    &&& kept_as_is(c)
    &&& c != ' '
    &&& c != '"'
    &&& c != '<'
    &&& c != '>'
    &&& c != '`'
    &&& c != '='
}

proof fn lemma_hex_upper_safe(d: int)
    requires
        0 <= d < 16,
    ensures
        query_safe(hex_upper(d)),
{
    let t = seq!['0', '1', '2', '3', '4', '5', '6', '7', '8', '9', 'A', 'B', 'C', 'D', 'E', 'F'];
    assert(hex_upper(d) == t[d]);
    assert(query_safe(t[d])) by {
        if d < 8 {
            if d < 4 {
                assert(d == 0 || d == 1 || d == 2 || d == 3);
            } else {
                assert(d == 4 || d == 5 || d == 6 || d == 7);
            }
        } else if d < 12 {
            assert(d == 8 || d == 9 || d == 10 || d == 11);
        } else {
            assert(d == 12 || d == 13 || d == 14 || d == 15);
        }
    }
}

proof fn lemma_percent_bytes_safe(bs: Seq<u8>)
    ensures
        forall|i: int| 0 <= i < percent_bytes(bs).len() ==> query_safe(#[trigger] percent_bytes(bs)[i]),
    decreases bs.len(),
{
    if bs.len() > 0 {
        lemma_percent_bytes_safe(bs.drop_last());
        let b = bs.last();
        lemma_hex_upper_safe(b as int / 16);
        lemma_hex_upper_safe(b as int % 16);
        let p = percent_bytes(bs.drop_last());
        let t = percent_byte(b);
        assert forall|i: int| 0 <= i < percent_bytes(bs).len() implies query_safe(
            #[trigger] percent_bytes(bs)[i],
        ) by {
            if i >= p.len() {
                assert(percent_bytes(bs)[i] == t[i - p.len()]);
            } else {
                assert(percent_bytes(bs)[i] == p[i]);
            }
        }
    }
}

proof fn lemma_controls_encoded_kept(s: Seq<char>)
    ensures
        forall|i: int|
            0 <= i < controls_encoded(s).len() ==> kept_as_is(#[trigger] controls_encoded(s)[i]),
    decreases s.len(),
{
    if s.len() > 0 {
        lemma_controls_encoded_kept(s.drop_last());
        let c = s.last();
        let p = controls_encoded(s.drop_last());
        let t = control_char(c);
        lemma_percent_bytes_safe(utf8_of(c));
        assert forall|i: int| 0 <= i < controls_encoded(s).len() implies kept_as_is(
            #[trigger] controls_encoded(s)[i],
        ) by {
            if i >= p.len() {
                assert(controls_encoded(s)[i] == t[i - p.len()]);
            } else {
                assert(controls_encoded(s)[i] == p[i]);
            }
        }
    }
}

proof fn lemma_escaped_char_safe(c: char)
    requires
        kept_as_is(c),
    ensures
        forall|i: int| 0 <= i < escaped_char(c).len() ==> query_safe(#[trigger] escaped_char(c)[i]),
{
    reveal_strlit("%20");
    reveal_strlit("%22");
    reveal_strlit("%3C");
    reveal_strlit("%3E");
    reveal_strlit("%60");
    reveal_strlit("%3D");
}

proof fn lemma_reserved_escaped_safe(s: Seq<char>)
    requires
        forall|i: int| 0 <= i < s.len() ==> kept_as_is(#[trigger] s[i]),
    ensures
        forall|i: int|
            0 <= i < reserved_escaped(s).len() ==> query_safe(#[trigger] reserved_escaped(s)[i]),
    decreases s.len(),
{
    if s.len() > 0 {
        lemma_reserved_escaped_safe(s.drop_last());
        let c = s.last();
        let p = reserved_escaped(s.drop_last());
        let t = escaped_char(c);
        lemma_escaped_char_safe(c);
        assert forall|i: int| 0 <= i < reserved_escaped(s).len() implies query_safe(
            #[trigger] reserved_escaped(s)[i],
        ) by {
            if i >= p.len() {
                assert(reserved_escaped(s)[i] == t[i - p.len()]);
            } else {
                assert(reserved_escaped(s)[i] == p[i]);
            }
        }
    }
}

/// An encoded query holds printable ASCII only, and no space, `"`, `<`, `>`,
/// backtick or literal `=`: every `=` of the query stands there as `%3D`.
pub proof fn lemma_encoded_query_safe(s: Seq<char>)
    ensures
        forall|i: int|
            0 <= i < encoded_query(s).len() ==> query_safe(#[trigger] encoded_query(s)[i]),
{
    lemma_controls_encoded_kept(s);
    lemma_reserved_escaped_safe(controls_encoded(s));
}

/// The number of `=` in `s`.
pub open spec fn equals_count(s: Seq<char>) -> nat
    decreases s.len(),
{
    if s.len() == 0 {
        0
    } else {
        equals_count(s.drop_last()) + if s.last() == '=' {
            1nat
        } else {
            0nat
        }
    }
}

/// The number of places where `%3D` occurs in `t`.
pub open spec fn escaped_equals_count(t: Seq<char>) -> nat
    decreases t.len(),
{
    if t.len() < 3 {
        0
    } else {
        escaped_equals_count(t.drop_last()) + if t.subrange(t.len() - 3, t.len() as int) == "%3D"@ {
            1nat
        } else {
            0nat
        }
    }
}

/// Neither of the last two characters of `t` is `%`.
pub open spec fn ends_clear(t: Seq<char>) -> bool {
    forall|j: int| t.len() - 2 <= j < t.len() && 0 <= j ==> #[trigger] t[j] != '%'
}

proof fn lemma_count_concat(a: Seq<char>, b: Seq<char>)
    requires
        ends_clear(a),
    ensures
        escaped_equals_count(a + b) == escaped_equals_count(a) + escaped_equals_count(b),
    decreases b.len(),
{
    reveal_strlit("%3D");
    if b.len() == 0 {
        assert(a + b =~= a);
    } else {
        lemma_count_concat(a, b.drop_last());
        assert((a + b).drop_last() =~= a + b.drop_last());
        let n = (a + b).len() as int;
        if n >= 3 {
            if b.len() >= 3 {
                assert((a + b).subrange(n - 3, n) =~= b.subrange(b.len() - 3, b.len() as int));
            } else {
                let w = (a + b).subrange(n - 3, n);
                assert(w[0] == a[a.len() - (3 - b.len())]);
            }
        }
    }
}

proof fn lemma_reserved_concat(a: Seq<char>, b: Seq<char>)
    ensures
        reserved_escaped(a + b) == reserved_escaped(a) + reserved_escaped(b),
    decreases b.len(),
{
    if b.len() == 0 {
        assert(a + b =~= a);
        assert(reserved_escaped(a) + reserved_escaped(b) =~= reserved_escaped(a));
    } else {
        lemma_reserved_concat(a, b.drop_last());
        assert((a + b).drop_last() =~= a + b.drop_last());
        assert((a + b).last() == b.last());
        assert(reserved_escaped(a + b) =~= reserved_escaped(a) + reserved_escaped(b));
    }
}

proof fn lemma_reserved_identity(t: Seq<char>)
    requires
        forall|i: int| 0 <= i < t.len() ==> query_safe(#[trigger] t[i]),
    ensures
        reserved_escaped(t) == t,
    decreases t.len(),
{
    if t.len() > 0 {
        lemma_reserved_identity(t.drop_last());
        assert(query_safe(t[t.len() - 1]));
        assert(t.drop_last() + seq![t.last()] =~= t);
    }
}

proof fn lemma_hex_upper_not(d: int)
    requires
        0 <= d < 16,
    ensures
        hex_upper(d) != '%',
        hex_upper(d) == '3' <==> d == 3,
{
    let t = seq!['0', '1', '2', '3', '4', '5', '6', '7', '8', '9', 'A', 'B', 'C', 'D', 'E', 'F'];
    assert(hex_upper(d) == t[d]);
    if d < 8 {
        if d < 4 {
            assert(d == 0 || d == 1 || d == 2 || d == 3);
        } else {
            assert(d == 4 || d == 5 || d == 6 || d == 7);
        }
    } else if d < 12 {
        assert(d == 8 || d == 9 || d == 10 || d == 11);
    } else {
        assert(d == 12 || d == 13 || d == 14 || d == 15);
    }
}

proof fn lemma_percent_bytes_count(bs: Seq<u8>)
    requires
        forall|k: int| 0 <= k < bs.len() ==> (#[trigger] bs[k]) as int / 16 != 3,
    ensures
        escaped_equals_count(percent_bytes(bs)) == 0,
        ends_clear(percent_bytes(bs)),
    decreases bs.len(),
{
    reveal_strlit("%3D");
    if bs.len() > 0 {
        let b = bs.last();
        assert(bs[bs.len() - 1] == b);
        lemma_percent_bytes_count(bs.drop_last());
        lemma_hex_upper_not(b as int / 16);
        lemma_hex_upper_not(b as int % 16);
        let q = percent_byte(b);
        let a = percent_bytes(bs.drop_last());
        lemma_count_concat(a, q);
        assert(percent_bytes(bs) == a + q);
        assert(q.drop_last().len() == 2);
        assert(q.subrange(0, 3) =~= q);
        assert(q != "%3D"@) by {
            assert("%3D"@[1] == '3');
            assert(q[1] == hex_upper(b as int / 16));
        }
        assert(escaped_equals_count(q.drop_last()) == 0);
        assert(escaped_equals_count(q) == 0);
        let t = a + q;
        assert forall|j: int| t.len() - 2 <= j < t.len() && 0 <= j implies #[trigger] t[j] != '%' by {
            assert(t[j] == q[j - a.len()]);
        }
    }
}

proof fn lemma_utf8_not_3x(c: char)
    requires
        !kept_as_is(c),
    ensures
        utf8_of(c).len() > 0,
        forall|k: int| 0 <= k < utf8_of(c).len() ==> (#[trigger] utf8_of(c)[k]) as int / 16 != 3,
{
}

/// What one character of a raw query becomes in its encoded form.
pub open spec fn encoded_piece(c: char) -> Seq<char> {
    reserved_escaped(control_char(c))
}

proof fn lemma_piece(c: char)
    requires
        c != '%',
    ensures
        escaped_equals_count(encoded_piece(c)) == if c == '=' {
            1nat
        } else {
            0nat
        },
        encoded_piece(c).len() > 0,
        encoded_piece(c).last() != '%',
        encoded_piece(c).len() >= 2 ==> ends_clear(encoded_piece(c)),
{
    reveal_strlit("%20");
    reveal_strlit("%22");
    reveal_strlit("%3C");
    reveal_strlit("%3E");
    reveal_strlit("%60");
    reveal_strlit("%3D");
    let q = encoded_piece(c);
    if kept_as_is(c) {
        let one = seq![c];
        assert(one.drop_last() =~= Seq::<char>::empty());
        assert(one.last() == c);
        assert(reserved_escaped(Seq::<char>::empty()) == Seq::<char>::empty());
        assert(reserved_escaped(one) == reserved_escaped(one.drop_last()) + escaped_char(c));
        assert(q =~= escaped_char(c));
        if q.len() == 3 {
            assert(q.drop_last().len() == 2);
            assert(escaped_equals_count(q.drop_last()) == 0);
            assert(q.subrange(0, 3) =~= q);
            if c != '=' {
                assert(q[1] != '3' || q[2] != 'D');
                assert(q != "%3D"@);
            }
        }
    } else {
        let bs = utf8_of(c);
        lemma_utf8_not_3x(c);
        lemma_percent_bytes_safe(bs);
        lemma_reserved_identity(percent_bytes(bs));
        lemma_percent_bytes_count(bs);
        let b = bs.last();
        assert(bs[bs.len() - 1] == b);
        lemma_hex_upper_not(b as int % 16);
        assert(q.last() == hex_upper(b as int % 16));
    }
}

proof fn lemma_encoded_step(s: Seq<char>)
    requires
        s.len() > 0,
    ensures
        encoded_query(s) == encoded_query(s.drop_last()) + encoded_piece(s.last()),
{
    lemma_reserved_concat(controls_encoded(s.drop_last()), control_char(s.last()));
}

/// In the encoding of a query that holds no `%`, `%3D` occurs exactly as
/// often as `=` does in the query: each `=` became `%3D`, and nothing else
/// did.
pub proof fn lemma_encoded_equals_count(s: Seq<char>)
    requires
        forall|i: int| 0 <= i < s.len() ==> #[trigger] s[i] != '%',
    ensures
        escaped_equals_count(encoded_query(s)) == equals_count(s),
        ends_clear(encoded_query(s)),
    decreases s.len(),
{
    if s.len() > 0 {
        let c = s.last();
        assert(s[s.len() - 1] == c);
        lemma_encoded_equals_count(s.drop_last());
        lemma_encoded_step(s);
        lemma_piece(c);
        let a = encoded_query(s.drop_last());
        let q = encoded_piece(c);
        lemma_count_concat(a, q);
        let t = a + q;
        assert forall|j: int| t.len() - 2 <= j < t.len() && 0 <= j implies #[trigger] t[j] != '%' by {
            if j >= a.len() {
                assert(t[j] == q[j - a.len()]);
                if j - a.len() < q.len() - 1 {
                    assert(q.len() >= 2);
                }
            } else {
                assert(t[j] == a[j]);
            }
        }
    } else {
        assert(encoded_query(s) =~= Seq::<char>::empty());
    }
}

/// Relies on percent_encoding's `utf8_percent_encode` with its `CONTROLS`
/// set: each UTF-8 byte that is not ASCII or is a C0 control or DEL becomes
/// `%` and two upper-case hex digits (its `percent_encode_byte` table);
/// every other byte is kept.
#[verifier::external_body]
fn controls_percent_encode(s: &str) -> (r: String)
    ensures
        r@ == controls_encoded(s@),
{
    percent_encoding::utf8_percent_encode(s, percent_encoding::CONTROLS).to_string()
}

/// `s` with space, `"`, `<`, `>`, backtick and `=` percent-encoded.
pub fn escape_reserved(s: &str) -> (r: String)
    ensures
        r@ == reserved_escaped(s@),
{
    let n = s.unicode_len();
    let mut out = String::new();
    let mut i: usize = 0;
    while i < n
        invariant
            n == s@.len(),
            i <= n,
            out@ == reserved_escaped(s@.subrange(0, i as int)),
        decreases n - i,
    {
        let c = s.get_char(i);
        if c == ' ' {
            out.append("%20");
        } else if c == '"' {
            out.append("%22");
        } else if c == '<' {
            out.append("%3C");
        } else if c == '>' {
            out.append("%3E");
        } else if c == '`' {
            out.append("%60");
        } else if c == '=' {
            out.append("%3D");
        } else {
            out.append(s.substring_char(i, i + 1));
        }
        proof {
            assert(s@.subrange(0, i + 1).drop_last() =~= s@.subrange(0, i as int));
        }
        i = i + 1;
    }
    proof {
        assert(s@.subrange(0, n as int) =~= s@);
    }
    out
}

/// Encodes a raw query for the tracker's search address.
pub fn encode_query(jql: &str) -> (r: String)
    ensures
        r@ == encoded_query(jql@),
{
    let encoded = controls_percent_encode(jql);
    escape_reserved(encoded.as_str())
}

} // verus!
